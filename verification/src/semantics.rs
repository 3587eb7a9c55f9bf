//! The language that an expression denotes, and the laws of the expression algebra.
use crate::ast::{
    ExprModel, Quantifier, Substring, common_graphemes, common_prefix_len, flatten_option,
    flatten_options, graphemes_of, insert_by_len, sort_by_len, spec_find_common_substring,
    spec_new_alternation, spec_remove_common_substring, spec_remove_substring, spec_union_core,
    spec_union_distinct, spec_value, value_or_empty, spec_concatenate, spec_new_literal,
};
use vstd::prelude::*;

verus! {

broadcast use vstd::seq::group_seq_axioms, vstd::seq_lib::group_seq_properties;

/// Whether the text `s` belongs to the language of `m`: a literal denotes the text of its
/// graphemes, a concatenation the texts that split into a text of each part, an
/// alternation the texts of any option, `?` the empty text and the texts of its
/// expression, and `*` the texts made of any number of texts of its expression.
pub open spec fn accepts(m: ExprModel, s: Seq<char>) -> bool
    decreases m, s.len(),
{
    match m {
        ExprModel::Alt(o) => exists|k: int| #![trigger o[k]] 0 <= k < o.len() && accepts(o[k], s),
        ExprModel::Cat(a, b) => exists|i: int|
            #![trigger s.take(i)]
            0 <= i <= s.len() && accepts(*a, s.take(i)) && accepts(*b, s.skip(i)),
        ExprModel::Lit(g) => s == g.flatten(),
        ExprModel::Rep(e, q) => s.len() == 0 || match q {
            Quantifier::QuestionMark => accepts(*e, s),
            Quantifier::KleeneStar => exists|i: int|
                #![trigger s.take(i)]
                1 <= i <= s.len() && accepts(*e, s.take(i)) && accepts(m, s.skip(i)),
        },
    }
}

/// Some expression of the sequence matches the text.
pub open spec fn any_accepts(o: Seq<ExprModel>, s: Seq<char>) -> bool {
    exists|k: int| 0 <= k < o.len() && #[trigger] accepts(o[k], s)
}

/// `s` begins with `p`.
pub open spec fn starts_with(s: Seq<char>, p: Seq<char>) -> bool {
    p.len() <= s.len() && s.take(p.len() as int) == p
}

/// `s` ends with `q`.
pub open spec fn ends_with(s: Seq<char>, q: Seq<char>) -> bool {
    q.len() <= s.len() && s.skip(s.len() - q.len()) == q
}

pub proof fn lemma_accepts_alt(o: Seq<ExprModel>, s: Seq<char>)
    ensures
        accepts(ExprModel::Alt(o), s) == any_accepts(o, s),
{
    if accepts(ExprModel::Alt(o), s) {
        let k = choose|k: int| #![trigger o[k]] 0 <= k < o.len() && accepts(o[k], s);
        assert(accepts(o[k], s));
    }
    if any_accepts(o, s) {
        let k = choose|k: int| 0 <= k < o.len() && #[trigger] accepts(o[k], s);
        assert(decreases_to!(ExprModel::Alt(o) => ExprModel::Alt(o)->Alt_0));
        assert(decreases_to!(o => o[k]));
        assert(accepts(o[k], s));
        assert(accepts(ExprModel::Alt(o), s));
    }
}

/// A literal followed by an expression matches the texts that begin with the literal's
/// text and continue with a text of the expression.
pub proof fn lemma_accepts_literal_first(g: Seq<Seq<char>>, m: ExprModel, s: Seq<char>)
    ensures
        accepts(ExprModel::Cat(Box::new(ExprModel::Lit(g)), Box::new(m)), s) == (starts_with(s, g.flatten())
            && accepts(m, s.skip(g.flatten().len() as int))),
{
    let p = g.flatten();
    let e = ExprModel::Cat(Box::new(ExprModel::Lit(g)), Box::new(m));
    if accepts(e, s) {
        let i = choose|i: int|
            #![trigger s.take(i)]
            0 <= i <= s.len() && accepts(ExprModel::Lit(g), s.take(i)) && accepts(m, s.skip(i));
        assert(s.take(i) == p);
    }
    if starts_with(s, p) && accepts(m, s.skip(p.len() as int)) {
        assert(accepts(ExprModel::Lit(g), s.take(p.len() as int)));
    }
}

/// An expression followed by a literal matches the texts that end with the literal's text
/// and begin with a text of the expression.
pub proof fn lemma_accepts_literal_last(m: ExprModel, g: Seq<Seq<char>>, s: Seq<char>)
    ensures
        accepts(ExprModel::Cat(Box::new(m), Box::new(ExprModel::Lit(g))), s) == (ends_with(s, g.flatten())
            && accepts(m, s.take(s.len() - g.flatten().len()))),
{
    let q = g.flatten();
    let e = ExprModel::Cat(Box::new(m), Box::new(ExprModel::Lit(g)));
    if accepts(e, s) {
        let i = choose|i: int|
            #![trigger s.take(i)]
            0 <= i <= s.len() && accepts(m, s.take(i)) && accepts(ExprModel::Lit(g), s.skip(i));
        assert(s.skip(i) == q);
        assert(i == s.len() - q.len());
    }
    if ends_with(s, q) && accepts(m, s.take(s.len() - q.len())) {
        let i = s.len() - q.len();
        assert(s.take(i) == s.take(i));
        assert(accepts(ExprModel::Lit(g), s.skip(i)));
    }
}


/// A sequence of expressions matches where either part does.
pub proof fn lemma_any_accepts_concat(a: Seq<ExprModel>, b: Seq<ExprModel>, s: Seq<char>)
    ensures
        any_accepts(a + b, s) == (any_accepts(a, s) || any_accepts(b, s)),
{
    if any_accepts(a + b, s) {
        let k = choose|k: int| 0 <= k < (a + b).len() && #[trigger] accepts((a + b)[k], s);
        if k < a.len() {
            assert(accepts(a[k], s));
        } else {
            assert(accepts(b[k - a.len()], s));
        }
    }
    if any_accepts(a, s) {
        let k = choose|k: int| 0 <= k < a.len() && #[trigger] accepts(a[k], s);
        assert(accepts((a + b)[k], s));
    }
    if any_accepts(b, s) {
        let k = choose|k: int| 0 <= k < b.len() && #[trigger] accepts(b[k], s);
        assert(accepts((a + b)[a.len() + k], s));
    }
}

/// A single expression matches where it matches.
pub proof fn lemma_any_accepts_single(m: ExprModel, s: Seq<char>)
    ensures
        any_accepts(seq![m], s) == accepts(m, s),
{
    if accepts(m, s) {
        assert(accepts(seq![m][0], s));
    }
}

/// Splicing in the options of nested alternations keeps the texts that the options match.
pub proof fn lemma_any_accepts_flatten_options(o: Seq<ExprModel>, s: Seq<char>)
    ensures
        any_accepts(flatten_options(o), s) == any_accepts(o, s),
    decreases o,
{
    if o.len() == 0 {
        assert(flatten_options(o) =~= Seq::<ExprModel>::empty());
    } else {
        assert(decreases_to!(o => o[0]));
        lemma_any_accepts_flatten_option(o[0], s);
        lemma_any_accepts_flatten_options(o.drop_first(), s);
        lemma_any_accepts_concat(flatten_option(o[0]), flatten_options(o.drop_first()), s);
        assert(o =~= seq![o[0]] + o.drop_first());
        lemma_any_accepts_concat(seq![o[0]], o.drop_first(), s);
        lemma_any_accepts_single(o[0], s);
    }
}

/// Splicing in the options of an alternation keeps the texts that it matches.
pub proof fn lemma_any_accepts_flatten_option(m: ExprModel, s: Seq<char>)
    ensures
        any_accepts(flatten_option(m), s) == accepts(m, s),
    decreases m,
{
    match m {
        ExprModel::Alt(o) => {
            assert(decreases_to!(m => m->Alt_0));
            lemma_any_accepts_flatten_options(o, s);
            lemma_accepts_alt(o, s);
        },
        _ => {
            lemma_any_accepts_single(m, s);
        },
    }
}

/// Inserting by length keeps the texts that the expressions match.
pub proof fn lemma_any_accepts_insert(o: Seq<ExprModel>, m: ExprModel, s: Seq<char>)
    ensures
        any_accepts(insert_by_len(o, m), s) == (any_accepts(o, s) || accepts(m, s)),
    decreases o.len(),
{
    lemma_any_accepts_single(m, s);
    if o.len() == 0 {
        assert(insert_by_len(o, m) == seq![m]);
    } else if o[0].len() < m.len() {
        lemma_any_accepts_concat(seq![m], o, s);
    } else {
        lemma_any_accepts_insert(o.drop_first(), m, s);
        lemma_any_accepts_concat(seq![o[0]], insert_by_len(o.drop_first(), m), s);
        assert(o =~= seq![o[0]] + o.drop_first());
        lemma_any_accepts_concat(seq![o[0]], o.drop_first(), s);
        lemma_any_accepts_single(o[0], s);
    }
}

/// Sorting by length keeps the texts that the expressions match.
pub proof fn lemma_any_accepts_sort(o: Seq<ExprModel>, s: Seq<char>)
    ensures
        any_accepts(sort_by_len(o), s) == any_accepts(o, s),
    decreases o.len(),
{
    if o.len() == 0 {
        assert(sort_by_len(o) =~= Seq::<ExprModel>::empty());
    } else {
        lemma_any_accepts_sort(o.drop_last(), s);
        lemma_any_accepts_insert(sort_by_len(o.drop_last()), o.last(), s);
        assert(o =~= o.drop_last() + seq![o.last()]);
        lemma_any_accepts_concat(o.drop_last(), seq![o.last()], s);
        lemma_any_accepts_single(o.last(), s);
    }
}

/// An alternation of two expressions matches the texts of either.
pub proof fn lemma_accepts_new_alternation(a: ExprModel, b: ExprModel, s: Seq<char>)
    ensures
        accepts(spec_new_alternation(a, b), s) == (accepts(a, s) || accepts(b, s)),
{
    let f = flatten_options(seq![a, b]);
    lemma_accepts_alt(sort_by_len(f), s);
    lemma_any_accepts_sort(f, s);
    lemma_any_accepts_flatten_options(seq![a, b], s);
    assert(seq![a, b] =~= seq![a] + seq![b]);
    lemma_any_accepts_concat(seq![a], seq![b], s);
    lemma_any_accepts_single(a, s);
    lemma_any_accepts_single(b, s);
}


/// `spec_union_core` matches the texts of either of its parts.
pub proof fn lemma_accepts_union_core(a: ExprModel, b: ExprModel, s: Seq<char>)
    ensures
        accepts(spec_union_core(a, b), s) == (accepts(a, s) || accepts(b, s)),
{
    if a.is_empty() {
        assert(a->Lit_0 =~= Seq::<Seq<char>>::empty());
        assert(a->Lit_0.flatten() =~= Seq::<char>::empty());
        assert(accepts(a, s) == (s.len() == 0));
    } else if b.is_empty() {
        assert(b->Lit_0 =~= Seq::<Seq<char>>::empty());
        assert(b->Lit_0.flatten() =~= Seq::<char>::empty());
        assert(accepts(b, s) == (s.len() == 0));
    } else if a is Rep && a->Rep_1 == Quantifier::QuestionMark {
        lemma_accepts_new_alternation(*a->Rep_0, b, s);
    } else if b is Rep && b->Rep_1 == Quantifier::QuestionMark {
        lemma_accepts_new_alternation(a, *b->Rep_0, s);
    } else {
        lemma_accepts_new_alternation(a, b, s);
    }
}

/// A text begins with `p + r` exactly when it begins with `p` and its rest begins with `r`.
pub proof fn lemma_starts_with_concat(s: Seq<char>, p: Seq<char>, r: Seq<char>)
    ensures
        starts_with(s, p + r) == (starts_with(s, p) && starts_with(s.skip(p.len() as int), r)),
        starts_with(s, p + r) ==> s.skip(p.len() as int).skip(r.len() as int) == s.skip((p + r).len() as int),
{
    if starts_with(s, p) && starts_with(s.skip(p.len() as int), r) {
        assert(s.take((p + r).len() as int) =~= p + r) by {
            assert forall|j: int| 0 <= j < (p + r).len() implies s.take((p + r).len() as int)[j] == (p + r)[j] by {
                if j < p.len() {
                    assert(s.take(p.len() as int)[j] == p[j]);
                } else {
                    assert(s.skip(p.len() as int).take(r.len() as int)[j - p.len()] == r[j - p.len()]);
                }
            }
        }
    }
    if starts_with(s, p + r) {
        assert(s.take(p.len() as int) =~= p) by {
            assert forall|j: int| 0 <= j < p.len() implies s.take(p.len() as int)[j] == p[j] by {
                assert(s.take((p + r).len() as int)[j] == (p + r)[j]);
            }
        }
        assert(s.skip(p.len() as int).take(r.len() as int) =~= r) by {
            assert forall|j: int| 0 <= j < r.len() implies s.skip(p.len() as int).take(r.len() as int)[j] == r[j] by {
                assert(s.take((p + r).len() as int)[p.len() + j] == (p + r)[p.len() + j]);
            }
        }
        assert(s.skip(p.len() as int).skip(r.len() as int) =~= s.skip((p + r).len() as int));
    }
}

/// A text ends with `r + q` exactly when it ends with `q` and its rest ends with `r`.
pub proof fn lemma_ends_with_concat(s: Seq<char>, r: Seq<char>, q: Seq<char>)
    ensures
        ends_with(s, r + q) == (ends_with(s, q) && ends_with(s.take(s.len() - q.len()), r)),
        ends_with(s, r + q) ==> s.take(s.len() - q.len()).take(s.len() - q.len() - r.len()) == s.take(s.len() - (r + q).len()),
{
    let n = s.len() as int;
    if ends_with(s, q) && ends_with(s.take(n - q.len()), r) {
        assert(s.skip(n - (r + q).len()) =~= r + q) by {
            assert forall|j: int| 0 <= j < (r + q).len() implies s.skip(n - (r + q).len())[j] == (r + q)[j] by {
                if j < r.len() {
                    let t = s.take(n - q.len());
                    assert(t.skip(t.len() - r.len())[j] == r[j]);
                } else {
                    assert(s.skip(n - q.len())[j - r.len()] == q[j - r.len()]);
                }
            }
        }
    }
    if ends_with(s, r + q) {
        assert(s.skip(n - q.len()) =~= q) by {
            assert forall|j: int| 0 <= j < q.len() implies s.skip(n - q.len())[j] == q[j] by {
                assert(s.skip(n - (r + q).len())[r.len() + j] == (r + q)[r.len() + j]);
            }
        }
        let t = s.take(n - q.len());
        assert(t.skip(t.len() - r.len()) =~= r) by {
            assert forall|j: int| 0 <= j < r.len() implies t.skip(t.len() - r.len())[j] == r[j] by {
                assert(s.skip(n - (r + q).len())[j] == (r + q)[j]);
            }
        }
        assert(s.take(n - q.len()).take(n - q.len() - r.len()) =~= s.take(n - (r + q).len()));
    }
}

/// Taking `k` graphemes from the front of an expression's literal part leaves an
/// expression that matches the texts of the uncut expression with the taken text cut off.
pub proof fn lemma_accepts_remove_prefix(m: ExprModel, k: int, s: Seq<char>)
    requires
        0 <= k <= value_or_empty(m, Substring::Prefix).len(),
    ensures
        ({
            let p = value_or_empty(m, Substring::Prefix).take(k).flatten();
            accepts(m, s) == (starts_with(s, p) && accepts(
                spec_remove_substring(m, Substring::Prefix, k),
                s.skip(p.len() as int),
            ))
        }),
{
    reveal_with_fuel(spec_value, 2);
    reveal_with_fuel(spec_remove_substring, 2);
    let g = value_or_empty(m, Substring::Prefix);
    let p = g.take(k).flatten();
    let r = g.skip(k).flatten();
    assert(g =~= g.take(k) + g.skip(k));
    vstd::seq_lib::lemma_flatten_concat(g.take(k), g.skip(k));
    assert(g.flatten() == p + r);
    match m {
        ExprModel::Lit(h) => {
            assert(h == g);
            lemma_starts_with_concat(s, p, r);
            if accepts(m, s) {
                assert(s.take((p + r).len() as int) =~= s);
                assert(s.skip(p.len() as int) =~= r) by {
                    assert forall|j: int| 0 <= j < r.len() implies s.skip(p.len() as int)[j] == r[j] by {
                        assert(s[p.len() + j] == (p + r)[p.len() + j]);
                    }
                }
            }
            if starts_with(s, p) && accepts(spec_remove_substring(m, Substring::Prefix, k), s.skip(p.len() as int)) {
                assert(s =~= s.take(p.len() as int) + s.skip(p.len() as int));
            }
        },
        ExprModel::Cat(a, b) => {
            if *a is Lit {
                assert(a->Lit_0 == g);
                lemma_accepts_literal_first(g, *b, s);
                lemma_accepts_literal_first(g.skip(k), *b, s.skip(p.len() as int));
                lemma_starts_with_concat(s, p, r);
                assert(spec_remove_substring(m, Substring::Prefix, k) == ExprModel::Cat(
                    Box::new(ExprModel::Lit(g.skip(k))),
                    b,
                ));
            } else {
                assert(g =~= Seq::<Seq<char>>::empty());
                assert(p =~= Seq::<char>::empty());
                assert(s.skip(0) =~= s);
            }
        },
        _ => {
            assert(g =~= Seq::<Seq<char>>::empty());
            assert(p =~= Seq::<char>::empty());
            assert(s.skip(0) =~= s);
        },
    }
}


/// Taking `k` graphemes from the back of an expression's literal part leaves an
/// expression that matches the texts of the uncut expression with the taken text cut off.
pub proof fn lemma_accepts_remove_suffix(m: ExprModel, k: int, s: Seq<char>)
    requires
        0 <= k <= value_or_empty(m, Substring::Suffix).len(),
    ensures
        ({
            let g = value_or_empty(m, Substring::Suffix);
            let q = g.skip(g.len() - k).flatten();
            accepts(m, s) == (ends_with(s, q) && accepts(
                spec_remove_substring(m, Substring::Suffix, k),
                s.take(s.len() - q.len()),
            ))
        }),
{
    reveal_with_fuel(spec_value, 2);
    reveal_with_fuel(spec_remove_substring, 2);
    let g = value_or_empty(m, Substring::Suffix);
    let n = g.len() - k;
    let q = g.skip(n).flatten();
    let r = g.take(n).flatten();
    assert(g =~= g.take(n) + g.skip(n));
    vstd::seq_lib::lemma_flatten_concat(g.take(n), g.skip(n));
    assert(g.flatten() == r + q);
    match m {
        ExprModel::Lit(h) => {
            assert(h == g);
            let t = s.take(s.len() - q.len());
            assert(accepts(m, s) == (s == r + q));
            assert(spec_remove_substring(m, Substring::Suffix, k) == ExprModel::Lit(g.take(n)));
            assert(accepts(spec_remove_substring(m, Substring::Suffix, k), t) == (t == r));
            if s == r + q {
                assert(s.skip(s.len() - q.len()) =~= q) by {
                    assert forall|j: int| 0 <= j < q.len() implies s.skip(s.len() - q.len())[j] == q[j] by {
                        assert(s[r.len() + j] == (r + q)[r.len() + j]);
                    }
                }
                assert(t =~= r) by {
                    assert forall|j: int| 0 <= j < r.len() implies t[j] == r[j] by {
                        assert(s[j] == (r + q)[j]);
                    }
                }
            }
            if ends_with(s, q) && t == r {
                assert(s =~= t + s.skip(s.len() - q.len()));
                assert(s == r + q);
            }
            assert((s == r + q) == (ends_with(s, q) && t == r));
            assert(accepts(m, s) == (ends_with(s, q) && accepts(spec_remove_substring(m, Substring::Suffix, k), t)));
            assert(q == value_or_empty(m, Substring::Suffix).skip(value_or_empty(m, Substring::Suffix).len() - k).flatten());
            assert(t == s.take(s.len() - q.len()));
            assert(({
                let g = value_or_empty(m, Substring::Suffix);
                let q = g.skip(g.len() - k).flatten();
                accepts(m, s) == (ends_with(s, q) && accepts(
                    spec_remove_substring(m, Substring::Suffix, k),
                    s.take(s.len() - q.len()),
                ))
            }));
        },
        ExprModel::Cat(a, b) => {
            if *b is Lit {
                assert(b->Lit_0 == g);
                assert(m == ExprModel::Cat(Box::new(*a), Box::new(ExprModel::Lit(g))));
                let t = s.take(s.len() - q.len());
                lemma_accepts_literal_last(*a, g, s);
                lemma_accepts_literal_last(*a, g.take(n), t);
                lemma_ends_with_concat(s, r, q);
                assert(accepts(m, s) == (ends_with(s, r + q) && accepts(*a, s.take(s.len() - (r + q).len()))));
                if ends_with(s, q) && ends_with(t, r) {
                    assert(t.len() == s.len() - q.len());
                    assert(ends_with(s, r + q));
                    assert(t.take(t.len() - r.len()) == s.take(s.len() - (r + q).len()));
                    assert(accepts(m, s) == accepts(*a, t.take(t.len() - r.len())));
                } else {
                    assert(!ends_with(s, r + q));
                    assert(!accepts(m, s));
                }
                assert(accepts(ExprModel::Cat(a, Box::new(ExprModel::Lit(g.take(n)))), t) == (ends_with(t, r) && accepts(*a, t.take(t.len() - r.len()))));
                assert(accepts(spec_remove_substring(m, Substring::Suffix, k), t) == (ends_with(t, r) && accepts(*a, t.take(t.len() - r.len()))));
                assert(accepts(m, s) == (ends_with(s, q) && accepts(spec_remove_substring(m, Substring::Suffix, k), t)));
                assert(spec_remove_substring(m, Substring::Suffix, k) == ExprModel::Cat(
                    a,
                    Box::new(ExprModel::Lit(g.take(n))),
                ));
                assert(({
                    let g = value_or_empty(m, Substring::Suffix);
                    let q = g.skip(g.len() - k).flatten();
                    accepts(m, s) == (ends_with(s, q) && accepts(
                        spec_remove_substring(m, Substring::Suffix, k),
                        s.take(s.len() - q.len()),
                    ))
                }));
            } else {
                assert(g =~= Seq::<Seq<char>>::empty());
                assert(q =~= Seq::<char>::empty());
                assert(s.take(s.len() as int) =~= s);
                assert(s.skip(s.len() as int) =~= Seq::<char>::empty());
                assert(({
                    let g = value_or_empty(m, Substring::Suffix);
                    let q = g.skip(g.len() - k).flatten();
                    accepts(m, s) == (ends_with(s, q) && accepts(
                        spec_remove_substring(m, Substring::Suffix, k),
                        s.take(s.len() - q.len()),
                    ))
                }));
            }
        },
        _ => {
            assert(g =~= Seq::<Seq<char>>::empty());
            assert(q =~= Seq::<char>::empty());
            assert(s.take(s.len() as int) =~= s);
            assert(s.skip(s.len() as int) =~= Seq::<char>::empty());
        },
    }
}

/// The common prefix length is a shared prefix of both sequences.
pub proof fn lemma_common_prefix_len_bounds(x: Seq<Seq<char>>, y: Seq<Seq<char>>)
    ensures
        common_prefix_len(x, y) <= x.len(),
        common_prefix_len(x, y) <= y.len(),
        forall|j: int| 0 <= j < common_prefix_len(x, y) ==> #[trigger] x[j] == y[j],
    decreases x.len(),
{
    if !(x.len() == 0 || y.len() == 0 || x[0] != y[0]) {
        lemma_common_prefix_len_bounds(x.drop_first(), y.drop_first());
        assert forall|j: int| 0 <= j < common_prefix_len(x, y) implies #[trigger] x[j] == y[j] by {
            if j > 0 {
                assert(x.drop_first()[j - 1] == y.drop_first()[j - 1]);
            }
        }
    }
}


/// A text with a prefix `p` and a suffix `q` that do not overlap, read from either end.
pub proof fn lemma_affixes(s: Seq<char>, p: Seq<char>, q: Seq<char>)
    ensures
        (ends_with(s, q) && starts_with(s.take(s.len() - q.len()), p)) == (starts_with(s, p) && ends_with(
            s.skip(p.len() as int),
            q,
        )),
        (starts_with(s, p) && ends_with(s.skip(p.len() as int), q)) ==> s.take(s.len() - q.len()).skip(
            p.len() as int,
        ) == s.skip(p.len() as int).take(s.len() - p.len() - q.len()),
{
    let n = s.len() as int;
    if ends_with(s, q) && starts_with(s.take(n - q.len()), p) {
        assert(s.take(p.len() as int) =~= p) by {
            assert forall|j: int| 0 <= j < p.len() implies s.take(p.len() as int)[j] == p[j] by {
                assert(s.take(n - q.len()).take(p.len() as int)[j] == p[j]);
            }
        }
        let t = s.skip(p.len() as int);
        assert(t.skip(t.len() - q.len()) =~= q) by {
            assert forall|j: int| 0 <= j < q.len() implies t.skip(t.len() - q.len())[j] == q[j] by {
                assert(s.skip(n - q.len())[j] == q[j]);
            }
        }
    }
    if starts_with(s, p) && ends_with(s.skip(p.len() as int), q) {
        let t = s.skip(p.len() as int);
        assert(s.skip(n - q.len()) =~= q) by {
            assert forall|j: int| 0 <= j < q.len() implies s.skip(n - q.len())[j] == q[j] by {
                assert(t.skip(t.len() - q.len())[j] == q[j]);
            }
        }
        assert(s.take(n - q.len()).take(p.len() as int) =~= p) by {
            assert forall|j: int| 0 <= j < p.len() implies s.take(n - q.len()).take(p.len() as int)[j] == p[j] by {
                assert(s.take(p.len() as int)[j] == p[j]);
            }
        }
        assert(s.take(n - q.len()).skip(p.len() as int) =~= t.take(n - p.len() - q.len()));
    }
}

/// A text spelled by its own graphemes, as `new_literal` guarantees for the texts it is given.
pub open spec fn spelled(p: Option<Seq<char>>) -> bool {
    p matches Some(t) ==> graphemes_of(t).flatten() == t
}

/// The text that the common prefix of two expressions spells, empty if there is none.
pub open spec fn text_or_empty(p: Option<Seq<char>>) -> Seq<char> {
    match p {
        Some(t) => t,
        None => Seq::empty(),
    }
}

/// Factoring out the common prefix: each expression matches the texts that begin with the
/// prefix and continue with a text of the trimmed expression.
pub proof fn lemma_union_prefix(e1: ExprModel, e2: ExprModel, s: Seq<char>)
    ensures
        ({
            let p = text_or_empty(spec_find_common_substring(e1, e2, Substring::Prefix));
            let (a1, b1) = spec_remove_common_substring(e1, e2, Substring::Prefix);
            &&& accepts(e1, s) == (starts_with(s, p) && accepts(a1, s.skip(p.len() as int)))
            &&& accepts(e2, s) == (starts_with(s, p) && accepts(b1, s.skip(p.len() as int)))
        }),
{
    let x = value_or_empty(e1, Substring::Prefix);
    let y = value_or_empty(e2, Substring::Prefix);
    let c = common_graphemes(x, y, Substring::Prefix);
    lemma_common_prefix_len_bounds(x, y);
    let k = c.len() as int;
    if k == 0 {
        assert(s.skip(0) =~= s);
        assert(s.take(0) =~= Seq::<char>::empty());
    } else {
        assert(x.take(k) == c);
        assert(y.take(k) =~= c);
        lemma_accepts_remove_prefix(e1, k, s);
        lemma_accepts_remove_prefix(e2, k, s);
    }
}

/// Factoring out the common suffix: each expression matches the texts that end with the
/// suffix and begin with a text of the trimmed expression.
pub proof fn lemma_union_suffix(a1: ExprModel, b1: ExprModel, s: Seq<char>)
    ensures
        ({
            let q = text_or_empty(spec_find_common_substring(a1, b1, Substring::Suffix));
            let (a2, b2) = spec_remove_common_substring(a1, b1, Substring::Suffix);
            &&& accepts(a1, s) == (ends_with(s, q) && accepts(a2, s.take(s.len() - q.len())))
            &&& accepts(b1, s) == (ends_with(s, q) && accepts(b2, s.take(s.len() - q.len())))
        }),
{
    let x = value_or_empty(a1, Substring::Suffix);
    let y = value_or_empty(b1, Substring::Suffix);
    let d = common_graphemes(x, y, Substring::Suffix);
    lemma_common_prefix_len_bounds(x.reverse(), y.reverse());
    let k = d.len() as int;
    if k == 0 {
        assert(s.take(s.len() as int) =~= s);
        assert(s.skip(s.len() as int) =~= Seq::<char>::empty());
    } else {
        assert(x.skip(x.len() - k) == d);
        assert(y.skip(y.len() - k) =~= d) by {
            assert forall|j: int| 0 <= j < k implies y.skip(y.len() - k)[j] == d[j] by {
                let r = k - 1 - j;
                assert(x.reverse()[r] == y.reverse()[r]);
            }
        }
        lemma_accepts_remove_suffix(a1, k, s);
        lemma_accepts_remove_suffix(b1, k, s);
    }
}

/// The union of two different expressions matches exactly the texts that either of them
/// matches, where the literals built for the common prefix and suffix spell them.
pub proof fn lemma_accepts_union_distinct(e1: ExprModel, e2: ExprModel, s: Seq<char>)
    requires
        spelled(spec_find_common_substring(e1, e2, Substring::Prefix)),
        spelled(
            spec_find_common_substring(
                spec_remove_common_substring(e1, e2, Substring::Prefix).0,
                spec_remove_common_substring(e1, e2, Substring::Prefix).1,
                Substring::Suffix,
            ),
        ),
    ensures
        accepts(spec_union_distinct(e1, e2), s) == (accepts(e1, s) || accepts(e2, s)),
{
    let pre = spec_find_common_substring(e1, e2, Substring::Prefix);
    let (a1, b1) = spec_remove_common_substring(e1, e2, Substring::Prefix);
    let suf = spec_find_common_substring(a1, b1, Substring::Suffix);
    let (a2, b2) = spec_remove_common_substring(a1, b1, Substring::Suffix);
    let core = spec_union_core(a2, b2);
    let p = text_or_empty(pre);
    let q = text_or_empty(suf);
    let with_prefix = match pre {
        Some(t) => ExprModel::Cat(Box::new(crate::ast::spec_new_literal(t)), Box::new(core)),
        None => core,
    };
    let v = s.take(s.len() - q.len());
    let w = v.skip(p.len() as int);
    let s1 = s.skip(p.len() as int);
    // the trimmed expressions
    lemma_union_prefix(e1, e2, s);
    lemma_union_suffix(a1, b1, s1);
    lemma_accepts_union_core(a2, b2, w);
    lemma_affixes(s, p, q);
    // the built expression, read from the outside in
    match suf {
        Some(t) => {
            lemma_accepts_literal_last(with_prefix, graphemes_of(t), s);
        },
        None => {
            assert(s.take(s.len() as int) =~= s);
            assert(s.skip(s.len() as int) =~= Seq::<char>::empty());
        },
    }
    match pre {
        Some(t) => {
            lemma_accepts_literal_first(graphemes_of(t), core, v);
        },
        None => {
            assert(v.skip(0) =~= v);
        },
    }
    if starts_with(s, p) && ends_with(s1, q) {
        assert(w == s1.take(s1.len() - q.len()));
    }
}


/// Whether an optional expression matches a text; a missing one matches nothing.
pub open spec fn opt_accepts(m: Option<ExprModel>, s: Seq<char>) -> bool {
    match m {
        Some(e) => accepts(e, s),
        None => false,
    }
}

/// The text of the literal that `spec_concatenate` builds from two literals, if it builds one.
pub open spec fn spec_concatenate_text(e1: ExprModel, e2: ExprModel) -> Option<Seq<char>> {
    if e1.is_empty() || e2.is_empty() {
        None
    } else if e1 is Lit && e2 is Lit {
        Some(e1->Lit_0.flatten() + e2->Lit_0.flatten())
    } else if e1 is Lit && e2 is Cat && *e2->Cat_0 is Lit {
        Some(e1->Lit_0.flatten() + e2->Cat_0->Lit_0.flatten())
    } else if e2 is Lit && e1 is Cat && *e1->Cat_1 is Lit {
        Some(e1->Cat_1->Lit_0.flatten() + e2->Lit_0.flatten())
    } else {
        None
    }
}

/// A text consists of `a` followed by `b` exactly when it begins with `a` and its rest is `b`.
pub proof fn lemma_split_text(s: Seq<char>, a: Seq<char>, b: Seq<char>)
    ensures
        (starts_with(s, a) && s.skip(a.len() as int) == b) == (s == a + b),
{
    if s == a + b {
        assert(s.take(a.len() as int) =~= a);
        assert(s.skip(a.len() as int) =~= b);
    }
    if starts_with(s, a) && s.skip(a.len() as int) == b {
        assert(s =~= s.take(a.len() as int) + s.skip(a.len() as int));
    }
}

/// The concatenation of two expressions matches exactly the texts that split into a text
/// of the first and a text of the second, where the literal it builds spells its text.
pub proof fn lemma_accepts_concatenate(e1: ExprModel, e2: ExprModel, s: Seq<char>)
    requires
        spelled(spec_concatenate_text(e1, e2)),
    ensures
        opt_accepts(spec_concatenate(Some(e1), Some(e2)), s) == accepts(
            ExprModel::Cat(Box::new(e1), Box::new(e2)),
            s,
        ),
{
    if e1.is_empty() {
        assert(e1->Lit_0 =~= Seq::<Seq<char>>::empty());
        lemma_accepts_literal_first(e1->Lit_0, e2, s);
        assert(s.skip(0) =~= s);
    } else if e2.is_empty() {
        assert(e2->Lit_0 =~= Seq::<Seq<char>>::empty());
        lemma_accepts_literal_last(e1, e2->Lit_0, s);
        assert(s.take(s.len() as int) =~= s);
        assert(s.skip(s.len() as int) =~= Seq::<char>::empty());
    } else if e1 is Lit && e2 is Lit {
        let a = e1->Lit_0.flatten();
        let b = e2->Lit_0.flatten();
        lemma_accepts_literal_first(e1->Lit_0, e2, s);
        lemma_split_text(s, a, b);
    } else if e1 is Lit && e2 is Cat && *e2->Cat_0 is Lit {
        let a = e1->Lit_0.flatten();
        let f = e2->Cat_0->Lit_0.flatten();
        let sec = *e2->Cat_1;
        lemma_accepts_literal_first(e1->Lit_0, e2, s);
        lemma_accepts_literal_first(e2->Cat_0->Lit_0, sec, s.skip(a.len() as int));
        lemma_accepts_literal_first(graphemes_of(a + f), sec, s);
        lemma_starts_with_concat(s, a, f);
    } else if e2 is Lit && e1 is Cat && *e1->Cat_1 is Lit {
        let g = e1->Cat_1->Lit_0.flatten();
        let b = e2->Lit_0.flatten();
        let first = *e1->Cat_0;
        let t = s.take(s.len() - b.len());
        lemma_accepts_literal_last(e1, e2->Lit_0, s);
        lemma_accepts_literal_last(first, e1->Cat_1->Lit_0, t);
        lemma_accepts_literal_last(first, graphemes_of(g + b), s);
        lemma_ends_with_concat(s, g, b);
        if ends_with(s, b) {
            assert(t.len() == s.len() - b.len());
        }
    }
}

} // verus!
