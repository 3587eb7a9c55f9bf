# grex (verified library)

Building blocks of a generator of regular expressions from test cases, written in
Verus: each function states its behaviour in `requires`/`ensures` and Verus proves it.

Layout of `src/`:

- `ast`, `semantics`, `display`: the expression tree, its language (which strings it
  accepts) with the laws of `union` and `concatenate`, and its rendering.
- `grapheme`, `cluster`, `substrings`, `repetition`: graphemes of test cases, their
  conversion to character classes, and the detection and conversion of repeated
  substrings (the table of repeated substrings, and the squares found by the method of
  Main and Lorentz), with the laws that these conversions keep the text.
- `escape`, `postprocessing`, `format`, `char_range`: escaping of non-ASCII characters,
  surrogate pairs, character classes, ranges of characters.
- `regexp`, `regexp/*`, `component`, `color`, `colorizable`: the settings, the
  components of an expression, their highlighting, the verbose layout.
- `dfa`: the automaton of the test cases in a `petgraph` graph, which accepts exactly
  their grapheme sequences and is minimal (every state reached, no two states
  accepting the same words); its minimization (removal of dead ends, merging of
  equivalent states by refinement until stable), which keeps what it accepts; and
  the difference of two automata, which accepts what the first accepts and the second
  does not.
- `generate`: the expression of the test cases, which matches exactly them, the
  `RegExp::from` and `RegExpBuilder::build` that produce it, and the check that a
  regular expression matches each test case once.
- `builder`, `options`, `suffixtable`, `text`: the settings builder, the parsing of
  numeric options, the suffix table, string helpers.

`app/main.rs` holds the command line: argument parsing, reading the test cases from
the arguments, standard input or a file, and error reporting.
