//! Generation of regular expressions from user-provided test cases.
//!
//! The library holds the building blocks of the generator: the automaton of the test
//! cases and its minimization, the expression tree and its algebra, the grapheme
//! model with repetition detection, the rendering of expressions and
//! regular-expression components, the escaping of non-ASCII characters and a few
//! helpers around them.

pub mod ast;
pub mod builder;
pub mod char_range;
pub mod cluster;
pub mod dfa;
pub mod color;
pub mod colorizable;
pub mod component;
pub mod display;
pub mod escape;
pub mod format;
pub mod generate;
pub mod grapheme;
pub mod options;
pub mod postprocessing;
pub mod repetition;
pub mod regexp;
pub mod semantics;
pub mod substrings;
pub mod suffixtable;
pub mod text;
