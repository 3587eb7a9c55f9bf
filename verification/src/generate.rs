//! Generation of a regular expression from test cases: an expression that offers each
//! test case as an alternative, so that it matches exactly the test cases.
use crate::ast::{
    flatten_option, flatten_options, insert_by_len, opt_model, sort_by_len, spec_new_alternation,
    spec_new_literal, strings_view, ExprModel, Expression,
};
use crate::builder::RegExpBuilder;
use crate::regexp::config::RegExpConfig;
use crate::regexp::verbose::{find_all, regex_find_all};
use crate::regexp::{
    case_folded, convert_for_case_insensitive_matching, insert_case, regexp_text, sort,
    sorted_cases, RegExp,
};
use crate::display::render;
use crate::semantics::{accepts, lemma_accepts_new_alternation, opt_accepts};
use vstd::prelude::*;

verus! {

broadcast use vstd::seq::group_seq_axioms, vstd::seq_lib::group_seq_properties;

/// Every option is a literal whose graphemes can be counted in a machine word.
pub open spec fn literal_options(o: Seq<ExprModel>) -> bool {
    forall|i: int| 0 <= i < o.len() ==> (#[trigger] o[i]) is Lit && o[i].len() <= usize::MAX
}

/// The texts that the test cases are; `Some` text matches, `None` matches nothing.
pub open spec fn is_case(cases: Seq<Seq<char>>, s: Seq<char>) -> bool {
    exists|i: int| 0 <= i < cases.len() && #[trigger] cases[i] == s
}

/// Options that are literals are their own flattening.
proof fn lemma_flatten_literals(o: Seq<ExprModel>)
    requires
        literal_options(o),
    ensures
        flatten_options(o) == o,
    decreases o.len(),
{
    if o.len() > 0 {
        assert(literal_options(o.drop_first())) by {
            assert forall|i: int| 0 <= i < o.drop_first().len() implies (#[trigger] o.drop_first()[i])
                is Lit && o.drop_first()[i].len() <= usize::MAX by {
                assert(o.drop_first()[i] == o[i + 1]);
            }
        }
        lemma_flatten_literals(o.drop_first());
        assert(o[0] is Lit);
        assert(flatten_option(o[0]) == seq![o[0]]);
        assert(o =~= seq![o[0]] + o.drop_first());
    }
}

/// Inserting a literal among literals keeps literals.
proof fn lemma_insert_literals(s: Seq<ExprModel>, m: ExprModel)
    requires
        literal_options(s),
        m is Lit,
        m.len() <= usize::MAX,
    ensures
        literal_options(insert_by_len(s, m)),
    decreases s.len(),
{
    if s.len() > 0 && !(s[0].len() < m.len()) {
        assert(literal_options(s.drop_first())) by {
            assert forall|i: int| 0 <= i < s.drop_first().len() implies (#[trigger] s.drop_first()[i])
                is Lit && s.drop_first()[i].len() <= usize::MAX by {
                assert(s.drop_first()[i] == s[i + 1]);
            }
        }
        lemma_insert_literals(s.drop_first(), m);
        let t = insert_by_len(s.drop_first(), m);
        assert forall|i: int| 0 <= i < (seq![s[0]] + t).len() implies (#[trigger] (seq![s[0]]
            + t)[i]) is Lit && (seq![s[0]] + t)[i].len() <= usize::MAX by {
            if i > 0 {
                assert((seq![s[0]] + t)[i] == t[i - 1]);
            }
        }
    } else if s.len() > 0 {
        assert forall|i: int| 0 <= i < (seq![m] + s).len() implies (#[trigger] (seq![m] + s)[i])
            is Lit && (seq![m] + s)[i].len() <= usize::MAX by {
            if i > 0 {
                assert((seq![m] + s)[i] == s[i - 1]);
            }
        }
    }
}

/// Sorting literals keeps literals.
proof fn lemma_sort_literals(s: Seq<ExprModel>)
    requires
        literal_options(s),
    ensures
        literal_options(sort_by_len(s)),
    decreases s.len(),
{
    if s.len() > 0 {
        assert(literal_options(s.drop_last())) by {
            assert forall|i: int| 0 <= i < s.drop_last().len() implies (#[trigger] s.drop_last()[i])
                is Lit && s.drop_last()[i].len() <= usize::MAX by {
                assert(s.drop_last()[i] == s[i]);
            }
        }
        lemma_sort_literals(s.drop_last());
        assert(s.last() == s[s.len() - 1]);
        lemma_insert_literals(sort_by_len(s.drop_last()), s.last());
    }
}

/// An expression that offers each test case as an alternative: the literal of the only
/// test case, or the alternation of the literals of all of them; `None` without test
/// cases.
pub fn expression_of(test_cases: &Vec<String>) -> (r: Option<Expression>)
    ensures
        (r is Some) == (test_cases@.len() > 0),
        forall|s: Seq<char>|
            opt_accepts(opt_model(r), s) == is_case(strings_view(test_cases@), s),
{
    let ghost cases = strings_view(test_cases@);
    let mut cur: Option<Expression> = None;
    let mut i: usize = 0;
    while i < test_cases.len()
        invariant
            i <= test_cases@.len(),
            cases == strings_view(test_cases@),
            (cur is Some) == (i > 0),
            cur matches Some(e) ==> literal_options(flatten_option(e@)),
            forall|s: Seq<char>|
                opt_accepts(opt_model(cur), s) == is_case(cases.take(i as int), s),
        decreases test_cases.len() - i,
    {
        let lit = Expression::new_literal(test_cases[i].as_str());
        let ghost t = test_cases@[i as int]@;
        // The literal's graphemes can be counted in a machine word.
        if let Expression::Literal(g) = &lit {
            let n = g.len();
            assert(n == g@.len());
        }
        proof {
            crate::ast::lemma_model_form(lit);
            assert(lit@ == spec_new_literal(t));
            assert(lit@->Lit_0.len() == lit->Literal_0@.len());
            assert(lit@.len() <= usize::MAX);
            assert forall|s: Seq<char>| accepts(lit@, s) == (s == t) by {}
            assert(cases.take(i + 1) =~= cases.take(i as int).push(t));
        }
        let ghost old_cur = cur;
        let next = match cur {
            None => {
                proof {
                    assert forall|s: Seq<char>| accepts(lit@, s) == is_case(cases.take(1), s) by {
                        if s == t {
                            assert(cases.take(1)[0] == t);
                        }
                    }
                    assert(flatten_option(lit@) == seq![lit@]);
                }
                lit
            },
            Some(e) => {
                let ghost f = flatten_options(seq![e@, lit@]);
                proof {
                    crate::ast::lemma_flatten_options_push(seq![e@], lit@);
                    crate::ast::lemma_flatten_options_push(Seq::<ExprModel>::empty(), e@);
                    assert(seq![e@] =~= Seq::<ExprModel>::empty().push(e@));
                    assert(seq![e@, lit@] =~= seq![e@].push(lit@));
                    assert(flatten_options(Seq::<ExprModel>::empty()) =~= Seq::<ExprModel>::empty());
                    assert(f =~= flatten_option(e@) + seq![lit@]);
                    assert(literal_options(f)) by {
                        assert forall|k: int| 0 <= k < f.len() implies (#[trigger] f[k]) is Lit
                            && f[k].len() <= usize::MAX by {
                            if k < flatten_option(e@).len() {
                                assert(f[k] == flatten_option(e@)[k]);
                            }
                        }
                    }
                    assert forall|k: int| 0 <= k < f.len() implies (#[trigger] f[k]).measurable() by {
                        assert(f[k] is Lit);
                    }
                    lemma_sort_literals(f);
                    lemma_flatten_literals(sort_by_len(f));
                    assert forall|s: Seq<char>| accepts(spec_new_alternation(e@, lit@), s)
                        == is_case(cases.take(i + 1), s) by {
                        lemma_accepts_new_alternation(e@, lit@, s);
                        assert(old_cur == Some(e));
                        assert(opt_accepts(opt_model(old_cur), s) == accepts(e@, s));
                        if is_case(cases.take(i as int), s) {
                            let j = choose|j: int| 0 <= j < i && #[trigger] cases.take(i as int)[j] == s;
                            assert(cases.take(i + 1)[j] == s);
                        }
                        if s == t {
                            assert(cases.take(i + 1)[i as int] == t);
                        }
                        if is_case(cases.take(i + 1), s) {
                            let j = choose|j: int| 0 <= j < i + 1 && #[trigger] cases.take(i + 1)[j] == s;
                            if j < i {
                                assert(cases.take(i as int)[j] == s);
                            }
                        }
                    }
                }
                Expression::new_alternation(e, lit)
            },
        };
        cur = Some(next);
        i = i + 1;
    }
    assert(cases.take(i as int) =~= cases);
    cur
}

/// The test cases after the folding of letters that case-insensitive matching asks
/// for, sorted by length and then lexicographically, without repeats.
pub open spec fn prepared_cases(cases: Seq<Seq<char>>, config: RegExpConfig) -> Seq<Seq<char>> {
    let folded = if config.is_case_insensitive_matching {
        cases.map_values(|s: Seq<char>| case_folded(s))
    } else {
        cases
    };
    sorted_cases(folded)
}

/// Sorting keeps at least one test case where there is one.
proof fn lemma_sorted_nonempty(s: Seq<Seq<char>>)
    requires
        s.len() > 0,
    ensures
        sorted_cases(s).len() > 0,
{
    let t = sorted_cases(s.drop_last());
    let m = s.last();
    assert(insert_case(t, m).len() > 0);
}

impl RegExp {
    /// The regular expression of the test cases: they are folded to lowercase where
    /// case-insensitive matching is asked for, sorted, and offered as alternatives of
    /// one expression, which matches exactly them. There must be one test case at least.
    pub fn from(test_cases: &mut Vec<String>, config: &RegExpConfig) -> (r: RegExp)
        requires
            old(test_cases)@.len() > 0,
        ensures
            strings_view(final(test_cases)@) == prepared_cases(strings_view(old(test_cases)@), *config),
            r.config == *config,
            forall|s: Seq<char>|
                accepts(r.ast@, s) == is_case(strings_view(final(test_cases)@), s),
    {
        if config.is_case_insensitive_matching {
            convert_for_case_insensitive_matching(test_cases);
        }
        let ghost before = strings_view(test_cases@);
        proof {
            assert(before.len() > 0);
        }
        sort(test_cases);
        proof {
            lemma_sorted_nonempty(before);
        }
        let ast = expression_of(test_cases);
        match ast {
            Some(e) => {
                proof {
                    assert forall|s: Seq<char>| accepts(e@, s) == is_case(strings_view(test_cases@), s) by {
                        assert(opt_accepts(opt_model(Some(e)), s) == accepts(e@, s));
                    }
                }
                RegExp::new(e, config)
            },
            None => {
                assert(false);
                RegExp::new(Expression::new_literal(""), config)
            },
        }
    }
}

impl RegExpBuilder {
    /// Builds the regular expression of the test cases with the settings (see
    /// `RegExp::from`); its expression matches exactly the prepared test cases.
    pub fn build(&mut self) -> (s: String)
        requires
            old(self).test_cases@.len() > 0,
        ensures
            final(self).config == old(self).config,
            strings_view(final(self).test_cases@) == prepared_cases(
                strings_view(old(self).test_cases@),
                old(self).config,
            ),
            exists|m: ExprModel|
                #![trigger regexp_text(m, old(self).config)]
                s@ == regexp_text(m, old(self).config) && forall|t: Seq<char>|
                    accepts(m, t) == is_case(strings_view(final(self).test_cases@), t),
    {
        let config = self.config;
        let r = RegExp::from(&mut self.test_cases, &config);
        let s = r.to_string();
        proof {
            assert(s@ == regexp_text(r.ast@, config));
        }
        s
    }
}

/// Whether a pattern finds exactly one match in each test case, as the matches of
/// `regex::Regex::find_iter` are counted, going through the test cases in order:
/// `Some(false)` at the first test case with another number of matches, `None` where
/// the pattern is not a regular expression that the crate accepts.
pub open spec fn each_case_matched_once(pattern: Seq<char>, cases: Seq<Seq<char>>) -> Option<bool>
    decreases cases.len(),
{
    if cases.len() == 0 {
        Some(true)
    } else {
        match regex_find_all(pattern, cases[0]) {
            None => None,
            Some(ms) => if ms.len() == 1 {
                each_case_matched_once(pattern, cases.drop_first())
            } else {
                Some(false)
            },
        }
    }
}

/// Whether the regular expression `pattern` matches each test case exactly once.
pub fn regex_matches_all_test_cases(pattern: &str, test_cases: &Vec<String>) -> (r: Option<bool>)
    ensures
        r == each_case_matched_once(pattern@, strings_view(test_cases@)),
{
    let ghost cases = strings_view(test_cases@);
    let mut i: usize = 0;
    while i < test_cases.len()
        invariant
            i <= test_cases@.len(),
            cases == strings_view(test_cases@),
            each_case_matched_once(pattern@, cases) == each_case_matched_once(
                pattern@,
                cases.skip(i as int),
            ),
        decreases test_cases.len() - i,
    {
        proof {
            assert(cases.skip(i as int).drop_first() =~= cases.skip(i + 1));
            assert(cases.skip(i as int)[0] == test_cases@[i as int]@);
        }
        match find_all(pattern, test_cases[i].as_str()) {
            None => {
                return None;
            },
            Some(ms) => {
                if ms.len() != 1 {
                    return Some(false);
                }
            },
        }
        i = i + 1;
    }
    proof {
        assert(cases.skip(i as int).len() == 0);
    }
    Some(true)
}

/// Whether the regular expression that an expression stands for matches each test
/// case exactly once.
pub fn is_each_test_case_matched(expr: &Expression, test_cases: &Vec<String>) -> (r: Option<bool>)
    ensures
        r == each_case_matched_once(render(expr@), strings_view(test_cases@)),
{
    let pattern = expr.to_string();
    regex_matches_all_test_cases(pattern.as_str(), test_cases)
}

} // verus!
