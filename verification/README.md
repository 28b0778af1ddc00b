# scnr2

A scanner library with a scanner generator, verified with Verus.

A scanner is described in a small language: named modes, each with token
patterns (regular expressions with a token type, optional lookahead
conditions, and captures or validations of runtime state such as the number
of `#` of a raw string) and mode transitions. The generator turns a
description into one minimal DFA per mode over disjoint character classes;
the runtime scans text with those DFAs, taking the longest match, then the
pattern listed first, then the most specific validation.

What is proved of the generator: the automaton of each mode reads exactly
the words of each of its patterns into states that accept that pattern
(for well-formed expressions, except a pattern whose automaton is the
one-state automaton when a later pattern replaces it); the mode's DFA is that
automaton split into the disjoint classes, determinized and minimized, and
all modes and the character classification share one set of classes. That a
character's class in the classification is a class the split automaton reads
it by is not proved: the words of a mode's DFA are stated over sequences of
classes, not characters.

## Layout

- `src/` — the verified library.
  - Runtime: `types`, `class_table`, `dfa_sim`, `dynamic_state`,
    `match_types`, `scanner_impl`, `find_matches`, `test_scanner`.
  - Generator: `tokens` and `keyword` and `dsl` (the description language),
    `dynamic`, `pattern`, `scanner_data`, `scanner_mode` (resolution of modes
    and runtime-state patterns), `regex_ast`, `character_classes`, `nfa`,
    `dfa`, `minimizer` (automata), `nfa_language` (what the automata accept),
    `generate` (the pipeline), `scanner`
    (a scanner built at run time from a description).
  - `laws` — properties that span several operations.
- `tests/` — tests of the library.
- `app/` — the rendering of a generated scanner as Rust code.
