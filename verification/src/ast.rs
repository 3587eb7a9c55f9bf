//! The expression tree of a regular expression and its algebra.
use crate::semantics::{
    lemma_accepts_concatenate, lemma_accepts_union_distinct, lemma_common_prefix_len_bounds, accepts,
    opt_accepts,
    spec_concatenate_text, spelled,
};
use crate::text::str_eq;
use unicode_segmentation::UnicodeSegmentation;
use vstd::prelude::*;

verus! {

broadcast use vstd::seq::group_seq_axioms, vstd::seq_lib::group_seq_properties;

/// The quantifiers that a repetition may carry.
#[derive(Clone, Copy, Debug, PartialEq, Eq, Structural)]
pub enum Quantifier {
    KleeneStar,
    QuestionMark,
}

/// The side of an expression that a common substring is taken from.
#[derive(Clone, Copy, Debug, PartialEq, Eq, Structural)]
pub enum Substring {
    Prefix,
    Suffix,
}

/// A regular expression tree over graphemes.
#[derive(Debug)]
pub enum Expression {
    Alternation(Vec<Expression>),
    Concatenation(Box<Expression>, Box<Expression>),
    Literal(Vec<String>),
    Repetition(Box<Expression>, Quantifier),
}

/// The mathematical value of an expression: the same tree, with each grapheme
/// taken as its sequence of characters.
#[verifier::ext_equal]
pub enum ExprModel {
    Alt(Seq<ExprModel>),
    Cat(Box<ExprModel>, Box<ExprModel>),
    Lit(Seq<Seq<char>>),
    Rep(Box<ExprModel>, Quantifier),
}

/// The characters of a sequence of strings.
pub open spec fn strings_view(v: Seq<String>) -> Seq<Seq<char>> {
    v.map_values(|s: String| s@)
}

/// The characters of a sequence of string slices.
pub open spec fn strs_view(v: Seq<&str>) -> Seq<Seq<char>> {
    v.map_values(|s: &str| s@)
}

/// The values of a sequence of expressions.
pub open spec fn models(v: Seq<Expression>) -> Seq<ExprModel> {
    v.map_values(|e: Expression| e@)
}

impl Expression {
    pub open spec fn model(&self) -> ExprModel
        decreases self,
    {
        match self {
            Expression::Alternation(v) => ExprModel::Alt(
                Seq::new(
                    v@.len(),
                    |i: int|
                        if 0 <= i < v@.len() {
                            v@[i].model()
                        } else {
                            ExprModel::Lit(Seq::empty())
                        },
                ),
            ),
            Expression::Concatenation(a, b) => ExprModel::Cat(
                Box::new(a.model()),
                Box::new(b.model()),
            ),
            Expression::Literal(g) => ExprModel::Lit(strings_view(g@)),
            Expression::Repetition(e, q) => ExprModel::Rep(Box::new(e.model()), *q),
        }
    }
}

impl View for Expression {
    type V = ExprModel;

    open spec fn view(&self) -> ExprModel {
        self.model()
    }
}

/// The graphemes into which the extended grapheme cluster rules of Unicode divide a text.
pub uninterp spec fn graphemes_of(s: Seq<char>) -> Seq<Seq<char>>;

/// Splits `value` into its extended grapheme clusters with
/// `unicode_segmentation::UnicodeSegmentation::graphemes(value, true)`.
/// The contract claims that the result is named by `graphemes_of` and, as that
/// crate's iterator yields consecutive non-empty slices from the start of the
/// text to its end, that the clusters are non-empty and together spell `value`.
#[verifier::external_body]
pub(crate) fn split_graphemes(value: &str) -> (res: Vec<String>)
    ensures
        strings_view(res@) == graphemes_of(value@),
        strings_view(res@).flatten() == value@,
        forall|i: int| 0 <= i < res@.len() ==> (#[trigger] res@[i])@.len() > 0,
{
    UnicodeSegmentation::graphemes(value, true).map(|it| it.to_string()).collect()
}

impl ExprModel {
    pub open spec fn is_empty(self) -> bool {
        match self {
            ExprModel::Lit(g) => g.len() == 0,
            _ => false,
        }
    }

    pub open spec fn is_single_codepoint(self) -> bool {
        match self {
            ExprModel::Lit(g) => g.len() == 1,
            _ => false,
        }
    }

    pub open spec fn precedence(self) -> int {
        match self {
            ExprModel::Alt(_) => 1,
            ExprModel::Cat(_, _) => 2,
            ExprModel::Lit(_) => 2,
            ExprModel::Rep(_, _) => 3,
        }
    }

    /// The number of graphemes along the first option of each alternation.
    pub open spec fn len(self) -> nat
        decreases self,
    {
        match self {
            ExprModel::Alt(o) => if o.len() > 0 {
                o[0].len()
            } else {
                0
            },
            ExprModel::Cat(a, b) => a.len() + b.len(),
            ExprModel::Lit(g) => g.len(),
            ExprModel::Rep(e, _) => e.len(),
        }
    }

    /// Every alternation in the tree has at least one option.
    pub open spec fn wf(self) -> bool
        decreases self,
    {
        match self {
            ExprModel::Alt(o) => o.len() > 0 && forall|i: int| #![trigger o[i]] 0 <= i < o.len() ==> o[i].wf(),
            ExprModel::Cat(a, b) => a.wf() && b.wf(),
            ExprModel::Lit(_) => true,
            ExprModel::Rep(e, _) => e.wf(),
        }
    }

    /// The expression is well formed and its length fits in a machine word.
    pub open spec fn measurable(self) -> bool {
        self.wf() && self.len() <= usize::MAX
    }
}

/// The options of an alternation after nested alternations have been spliced in.
pub open spec fn flatten_options(s: Seq<ExprModel>) -> Seq<ExprModel>
    decreases s,
{
    if s.len() == 0 {
        Seq::empty()
    } else {
        flatten_option(s[0]) + flatten_options(s.drop_first())
    }
}

pub open spec fn flatten_option(m: ExprModel) -> Seq<ExprModel>
    decreases m,
{
    match m {
        ExprModel::Alt(o) => flatten_options(o),
        _ => seq![m],
    }
}

/// Inserts `m` after every element that is at least as long.
pub open spec fn insert_by_len(s: Seq<ExprModel>, m: ExprModel) -> Seq<ExprModel>
    decreases s.len(),
{
    if s.len() == 0 {
        seq![m]
    } else if s[0].len() < m.len() {
        seq![m] + s
    } else {
        seq![s[0]] + insert_by_len(s.drop_first(), m)
    }
}

/// `s` sorted by decreasing length, equally long elements keeping their order.
pub open spec fn sort_by_len(s: Seq<ExprModel>) -> Seq<ExprModel>
    decreases s.len(),
{
    if s.len() == 0 {
        Seq::empty()
    } else {
        insert_by_len(sort_by_len(s.drop_last()), s.last())
    }
}

/// A copy of a vector of strings.
fn clone_strings(v: &Vec<String>) -> (r: Vec<String>)
    ensures
        strings_view(r@) == strings_view(v@),
{
    let mut r: Vec<String> = Vec::new();
    let mut i: usize = 0;
    while i < v.len()
        invariant
            i <= v.len(),
            strings_view(r@) == strings_view(v@.subrange(0, i as int)),
        decreases v.len() - i,
    {
        r.push(v[i].clone());
        assert(strings_view(v@.subrange(0, i + 1)) == strings_view(v@.subrange(0, i as int)).push(v@[i as int]@));
        i = i + 1;
    }
    assert(v@.subrange(0, v@.len() as int) == v@);
    r
}

impl Expression {
    /// A copy of this expression.
    pub fn copy(&self) -> (r: Self)
        ensures
            r@ == self@,
        decreases self,
    {
        match self {
            Expression::Alternation(options) => {
                let mut v: Vec<Expression> = Vec::new();
                let mut i: usize = 0;
                while i < options.len()
                    invariant
                        *self == Expression::Alternation(*options),
                        i <= options.len(),
                        v@.len() == i,
                        forall|j: int| 0 <= j < i ==> (#[trigger] v@[j])@ == options@[j]@,
                    decreases options.len() - i,
                {
                    proof {
                        let ghost ov = self->Alternation_0;
                        assert(decreases_to!(*self => self->Alternation_0));
                        assert(decreases_to!(ov => ov@));
                        assert(decreases_to!(ov@ => ov@[i as int]));
                    }
                    let c = options[i].copy();
                    v.push(c);
                    i = i + 1;
                }
                let r = Expression::Alternation(v);
                assert(forall|j: int| 0 <= j < v@.len() ==> v@[j].model() == options@[j].model());
                proof {
                    let ghost s1 = r@->Alt_0;
                    let ghost s2 = self@->Alt_0;
                    assert(s1.len() == s2.len());
                    assert forall|j: int| 0 <= j < s1.len() implies s1[j] == s2[j] by {
                        assert(s1[j] == v@[j].model());
                        assert(s2[j] == options@[j].model());
                    }
                    assert(s1 =~= s2);
                }
                r
            },
            Expression::Concatenation(a, b) => Expression::Concatenation(
                Box::new(a.copy()),
                Box::new(b.copy()),
            ),
            Expression::Literal(g) => Expression::Literal(clone_strings(g)),
            Expression::Repetition(e, q) => Expression::Repetition(Box::new(e.copy()), *q),
        }
    }
}

impl Clone for Expression {
    fn clone(&self) -> (r: Self)
        ensures
            r@ == self@,
    {
        self.copy()
    }
}

/// The value of an alternation is the alternation of the values of its options.
pub proof fn lemma_alternation_model(v: Vec<Expression>)
    ensures
        Expression::Alternation(v)@ == ExprModel::Alt(models(v@)),
{
    let e = Expression::Alternation(v);
    let s1 = e@->Alt_0;
    assert(s1 =~= models(v@));
}

impl Expression {
    pub fn new_concatenation(expr1: Expression, expr2: Expression) -> (r: Self)
        ensures
            r@ == ExprModel::Cat(Box::new(expr1@), Box::new(expr2@)),
    {
        Expression::Concatenation(Box::new(expr1), Box::new(expr2))
    }

    pub fn new_repetition(expr: Expression, quantifier: Quantifier) -> (r: Self)
        ensures
            r@ == ExprModel::Rep(Box::new(expr@), quantifier),
    {
        Expression::Repetition(Box::new(expr), quantifier)
    }

    /// A literal made of the extended grapheme clusters of `value`.
    pub fn new_literal(value: &str) -> (r: Self)
        ensures
            r@ == spec_new_literal(value@),
            graphemes_of(value@).flatten() == value@,
            forall|i: int| 0 <= i < graphemes_of(value@).len() ==> #[trigger] graphemes_of(value@)[i].len() > 0,
    {
        let g = split_graphemes(value);
        proof {
            assert forall|i: int| 0 <= i < graphemes_of(value@).len() implies #[trigger] graphemes_of(value@)[i].len() > 0 by {
                assert(graphemes_of(value@)[i] == g@[i]@);
            }
        }
        Expression::Literal(g)
    }

    pub fn is_empty(&self) -> (b: bool)
        ensures
            b == self@.is_empty(),
    {
        match self {
            Expression::Literal(graphemes) => graphemes.len() == 0,
            _ => false,
        }
    }

    pub fn is_single_codepoint(&self) -> (b: bool)
        ensures
            b == self@.is_single_codepoint(),
    {
        match self {
            Expression::Alternation(_) => false,
            Expression::Concatenation(_, _) => false,
            Expression::Literal(graphemes) => graphemes.len() == 1,
            Expression::Repetition(_, _) => false,
        }
    }

    pub fn precedence(&self) -> (p: u8)
        ensures
            p == self@.precedence(),
    {
        match self {
            Expression::Alternation(_) => 1,
            Expression::Concatenation(_, _) => 2,
            Expression::Literal(_) => 2,
            Expression::Repetition(_, _) => 3,
        }
    }

    /// The number of graphemes along the first option of each alternation.
    pub fn len(&self) -> (n: usize)
        requires
            self@.measurable(),
        ensures
            n == self@.len(),
        decreases self,
    {
        match self {
            Expression::Alternation(options) => {
                proof {
                    let ghost o = self@->Alt_0;
                    assert(o[0].wf());
                    assert(o[0] == options@[0]@);
                }
                options[0].len()
            },
            Expression::Concatenation(expr1, expr2) => expr1.len() + expr2.len(),
            Expression::Literal(graphemes) => graphemes.len(),
            Expression::Repetition(expr, _) => expr.len(),
        }
    }
}

pub open spec fn spec_new_alternation(a: ExprModel, b: ExprModel) -> ExprModel {
    ExprModel::Alt(sort_by_len(flatten_options(seq![a, b])))
}

pub open spec fn spec_new_literal(value: Seq<char>) -> ExprModel {
    ExprModel::Lit(graphemes_of(value))
}


/// Flattening distributes over appending one option.
pub proof fn lemma_flatten_options_push(s: Seq<ExprModel>, m: ExprModel)
    ensures
        flatten_options(s.push(m)) == flatten_options(s) + flatten_option(m),
    decreases s.len(),
{
    if s.len() == 0 {
        assert(s.push(m).drop_first() =~= Seq::<ExprModel>::empty());
        assert(flatten_options(Seq::<ExprModel>::empty()) == Seq::<ExprModel>::empty());
        assert(flatten_options(s.push(m)) =~= flatten_option(m));
    } else {
        assert(s.push(m).drop_first() =~= s.drop_first().push(m));
        lemma_flatten_options_push(s.drop_first(), m);
        assert(flatten_options(s.push(m)) =~= flatten_options(s) + flatten_option(m));
    }
}

/// Appends the options of `current_options` to `flattened_options`, splicing in the
/// options of nested alternations.
pub fn flatten_alternations(flattened_options: &mut Vec<Expression>, current_options: Vec<Expression>)
    ensures
        models(final(flattened_options)@) == models(old(flattened_options)@) + flatten_options(
            models(current_options@),
        ),
    decreases models(current_options@),
{
    let ghost orig = models(current_options@);
    let mut current = current_options;
    let ghost mut k: int = 0;
    while current.len() > 0
        invariant
            0 <= k <= orig.len(),
            orig == models(current_options@),
            models(current@) == orig.skip(k),
            models(flattened_options@) == models(old(flattened_options)@) + flatten_options(orig.take(k)),
        decreases current.len(),
    {
        proof {
            assert(models(current@).len() == current@.len());
            assert(models(current@)[0] == current@[0]@);
            assert(orig.skip(k)[0] == orig[k]);
        }
        let option = current.remove(0);
        proof {
            assert(models(current@) =~= orig.skip(k + 1));
            assert(option@ == orig[k]);
            assert(orig.take(k + 1) =~= orig.take(k).push(orig[k]));
            lemma_flatten_options_push(orig.take(k), orig[k]);
        }
        match option {
            Expression::Alternation(expr_options) => {
                proof {
                    lemma_alternation_model(expr_options);
                    assert(decreases_to!(orig => orig[k]));
                    assert(decreases_to!(orig[k] => orig[k]->Alt_0));
                }
                flatten_alternations(flattened_options, expr_options);
            },
            other => {
                flattened_options.push(other);
                proof {
                    assert(models(flattened_options@) =~= models(old(flattened_options)@) + flatten_options(orig.take(k)) + seq![orig[k]]);
                }
            },
        }
        proof {
            k = k + 1;
        }
    }
    proof {
        assert(orig.take(k) =~= orig);
    }
}

/// Inserting at the first position whose element is shorter.
pub proof fn lemma_insert_by_len(s: Seq<ExprModel>, m: ExprModel, p: int)
    requires
        0 <= p <= s.len(),
        forall|j: int| 0 <= j < p ==> (#[trigger] s[j]).len() >= m.len(),
        p < s.len() ==> s[p].len() < m.len(),
    ensures
        insert_by_len(s, m) == s.insert(p, m),
    decreases s.len(),
{
    if s.len() == 0 {
        assert(s.insert(p, m) =~= seq![m]);
    } else if p == 0 {
        assert(s.insert(p, m) =~= seq![m] + s);
    } else {
        lemma_insert_by_len(s.drop_first(), m, p - 1);
        assert(s.insert(p, m) =~= seq![s[0]] + s.drop_first().insert(p - 1, m));
    }
}

/// Sorts expressions by decreasing length; equally long ones keep their order.
fn sort_by_len_desc(options: Vec<Expression>) -> (r: Vec<Expression>)
    requires
        forall|i: int| 0 <= i < options@.len() ==> (#[trigger] options@[i])@.measurable(),
    ensures
        models(r@) == sort_by_len(models(options@)),
{
    let ghost orig = models(options@);
    let mut rest = options;
    let mut sorted: Vec<Expression> = Vec::new();
    let mut keys: Vec<usize> = Vec::new();
    let ghost mut k: int = 0;
    while rest.len() > 0
        invariant
            0 <= k <= orig.len(),
            models(rest@) == orig.skip(k),
            forall|i: int| 0 <= i < rest@.len() ==> (#[trigger] rest@[i])@.measurable(),
            models(sorted@) == sort_by_len(orig.take(k)),
            keys@.len() == sorted@.len(),
            forall|i: int| 0 <= i < keys@.len() ==> keys@[i] == (#[trigger] sorted@[i])@.len(),
        decreases rest.len(),
    {
        assert(rest@[0]@.measurable());
        proof {
            assert(models(rest@).len() == rest@.len());
            assert(models(rest@)[0] == rest@[0]@);
            assert(orig.skip(k)[0] == orig[k]);
        }
        let m = rest.remove(0);
        proof {
            assert(models(rest@) =~= orig.skip(k + 1));
            assert(m@ == orig[k]);
        }
        let key = m.len();
        let mut p: usize = 0;
        while p < keys.len() && keys[p] >= key
            invariant
                p <= keys@.len(),
                forall|j: int| 0 <= j < p ==> keys@[j] >= key,
            decreases keys.len() - p,
        {
            p = p + 1;
        }
        proof {
            let s = models(sorted@);
            assert forall|j: int| 0 <= j < p implies (#[trigger] s[j]).len() >= m@.len() by {
                assert(keys@[j] == sorted@[j]@.len());
            }
            if p < s.len() {
                assert(keys@[p as int] == sorted@[p as int]@.len());
            }
            lemma_insert_by_len(s, m@, p as int);
            assert(orig.take(k + 1).drop_last() =~= orig.take(k));
        }
        let ghost before = sorted@;
        sorted.insert(p, m);
        keys.insert(p, key);
        proof {
            assert(models(sorted@) =~= models(before).insert(p as int, m@));
            k = k + 1;
        }
    }
    proof {
        assert(orig.take(k) =~= orig);
    }
    sorted
}

/// Whether every option that an alternation of `expr1` and `expr2` would hold can be measured.
pub open spec fn alternation_ok(expr1: ExprModel, expr2: ExprModel) -> bool {
    all_measurable(flatten_options(seq![expr1, expr2]))
}

/// Every expression of the sequence can be measured.
pub open spec fn all_measurable(s: Seq<ExprModel>) -> bool {
    forall|i: int| 0 <= i < s.len() ==> (#[trigger] s[i]).measurable()
}

impl Expression {
    /// The alternation of the two expressions: nested alternations are spliced in and
    /// the options are ordered by decreasing length.
    pub fn new_alternation(expr1: Expression, expr2: Expression) -> (r: Self)
        requires
            alternation_ok(expr1@, expr2@),
        ensures
            r@ == spec_new_alternation(expr1@, expr2@),
    {
        let mut options: Vec<Expression> = Vec::new();
        let mut both: Vec<Expression> = Vec::new();
        both.push(expr1);
        both.push(expr2);
        proof {
            assert(models(both@) =~= seq![expr1@, expr2@]);
        }
        flatten_alternations(&mut options, both);
        proof {
            assert(models(options@) =~= flatten_options(seq![expr1@, expr2@]));
            assert forall|i: int| 0 <= i < options@.len() implies (#[trigger] options@[i])@.measurable() by {
                assert(options@[i]@ == flatten_options(seq![expr1@, expr2@])[i]);
            }
        }
        let sorted = sort_by_len_desc(options);
        proof {
            lemma_alternation_model(sorted);
        }
        Expression::Alternation(sorted)
    }
}


impl Expression {
    /// Whether the two expressions are the same tree.
    pub fn equals(&self, other: &Self) -> (r: bool)
        ensures
            r == (self@ == other@),
        decreases self,
    {
        match (self, other) {
            (Expression::Alternation(x), Expression::Alternation(y)) => {
                proof {
                    lemma_alternation_model(*x);
                    lemma_alternation_model(*y);
                }
                if x.len() != y.len() {
                    proof {
                        assert(models(x@).len() != models(y@).len());
                    }
                    return false;
                }
                let mut i: usize = 0;
                while i < x.len()
                    invariant
                        *self == Expression::Alternation(*x),
                        self@ == ExprModel::Alt(models(x@)),
                        other@ == ExprModel::Alt(models(y@)),
                        x@.len() == y@.len(),
                        i <= x@.len(),
                        forall|j: int| 0 <= j < i ==> (#[trigger] x@[j])@ == y@[j]@,
                    decreases x.len() - i,
                {
                    proof {
                        let ghost ov = self->Alternation_0;
                        assert(decreases_to!(*self => self->Alternation_0));
                        assert(decreases_to!(ov => ov@));
                        assert(decreases_to!(ov@ => ov@[i as int]));
                    }
                    if !x[i].equals(&y[i]) {
                        proof {
                            assert(models(x@)[i as int] != models(y@)[i as int]);
                        }
                        return false;
                    }
                    i = i + 1;
                }
                proof {
                    assert(models(x@) =~= models(y@));
                }
                true
            },
            (Expression::Concatenation(a1, b1), Expression::Concatenation(a2, b2)) => {
                a1.equals(a2) && b1.equals(b2)
            },
            (Expression::Literal(g1), Expression::Literal(g2)) => {
                if g1.len() != g2.len() {
                    proof {
                        assert(strings_view(g1@).len() != strings_view(g2@).len());
                    }
                    return false;
                }
                let mut i: usize = 0;
                while i < g1.len()
                    invariant
                        self@ == ExprModel::Lit(strings_view(g1@)),
                        other@ == ExprModel::Lit(strings_view(g2@)),
                        g1@.len() == g2@.len(),
                        i <= g1@.len(),
                        forall|j: int| 0 <= j < i ==> (#[trigger] g1@[j])@ == g2@[j]@,
                    decreases g1.len() - i,
                {
                    if !g1[i].eq(&g2[i]) {
                        proof {
                            assert(strings_view(g1@)[i as int] != strings_view(g2@)[i as int]);
                        }
                        return false;
                    }
                    i = i + 1;
                }
                proof {
                    assert(strings_view(g1@) =~= strings_view(g2@));
                }
                true
            },
            (Expression::Repetition(e1, q1), Expression::Repetition(e2, q2)) => {
                *q1 == *q2 && e1.equals(e2)
            },
            _ => false,
        }
    }
}

/// The substring side that an optional reference names.
pub open spec fn side(substring: Option<&Substring>) -> Option<Substring> {
    match substring {
        Some(s) => Some(*s),
        None => None,
    }
}

/// The graphemes that `value` reads from an expression: those of a literal, or, for a
/// concatenation and a given side, those of the literal on that side.
pub open spec fn spec_value(m: ExprModel, substring: Option<Substring>) -> Option<Seq<Seq<char>>>
    decreases m,
{
    match m {
        ExprModel::Cat(a, b) => match substring {
            Some(Substring::Prefix) => spec_value(*a, None),
            Some(Substring::Suffix) => spec_value(*b, None),
            None => None,
        },
        ExprModel::Lit(g) => Some(g),
        _ => None,
    }
}

/// The expression after `length` graphemes have been taken from the given side of its
/// literal part.
pub open spec fn spec_remove_substring(m: ExprModel, substring: Substring, length: int) -> ExprModel
    decreases m,
{
    match m {
        ExprModel::Cat(a, b) => match substring {
            Substring::Prefix => if *a is Lit {
                ExprModel::Cat(Box::new(spec_remove_substring(*a, substring, length)), b)
            } else {
                m
            },
            Substring::Suffix => if *b is Lit {
                ExprModel::Cat(a, Box::new(spec_remove_substring(*b, substring, length)))
            } else {
                m
            },
        },
        ExprModel::Lit(g) => match substring {
            Substring::Prefix => ExprModel::Lit(g.skip(length)),
            Substring::Suffix => ExprModel::Lit(g.take(g.len() - length)),
        },
        _ => m,
    }
}

/// Removing `length` graphemes stays within the literal that they are taken from.
pub open spec fn remove_substring_ok(m: ExprModel, substring: Substring, length: int) -> bool {
    match m {
        ExprModel::Cat(a, b) => match substring {
            Substring::Prefix => (*a matches ExprModel::Lit(g) ==> length <= g.len()),
            Substring::Suffix => (*b matches ExprModel::Lit(g) ==> length <= g.len()),
        },
        ExprModel::Lit(g) => length <= g.len(),
        _ => true,
    }
}

/// Removes `length` graphemes from the given side of a literal.
fn remove_graphemes(graphemes: &mut Vec<String>, substring: &Substring, length: usize)
    requires
        length <= old(graphemes)@.len(),
    ensures
        ExprModel::Lit(strings_view(final(graphemes)@)) == spec_remove_substring(
            ExprModel::Lit(strings_view(old(graphemes)@)),
            *substring,
            length as int,
        ),
{
    match substring {
        Substring::Prefix => {
            let rest = graphemes.split_off(length);
            *graphemes = rest;
            assert(strings_view(graphemes@) =~= strings_view(old(graphemes)@).skip(length as int));
        },
        Substring::Suffix => {
            let n = graphemes.len() - length;
            graphemes.truncate(n);
            assert(strings_view(graphemes@) =~= strings_view(old(graphemes)@).take(n as int));
        },
    }
}

impl Expression {
    /// Removes `length` graphemes from the given side of the literal part of this expression.
    pub fn remove_substring(&mut self, substring: &Substring, length: usize)
        requires
            remove_substring_ok(old(self)@, *substring, length as int),
        ensures
            final(self)@ == spec_remove_substring(old(self)@, *substring, length as int),
    {
        let mut taken = Expression::Literal(Vec::new());
        std::mem::swap(self, &mut taken);
        let ghost t = taken;
        assert(t@ == old(self)@);
        let result = match taken {
            Expression::Concatenation(expr1, expr2) => {
                let ghost e1: Expression = *expr1;
                let ghost e2: Expression = *expr2;
                assert(t@ == ExprModel::Cat(Box::new(e1@), Box::new(e2@)));
                match substring {
                    Substring::Prefix => match *expr1 {
                        Expression::Literal(mut graphemes) => {
                            assert(e1@ == ExprModel::Lit(strings_view(graphemes@)));
                            let ghost g0 = graphemes@;
                            remove_graphemes(&mut graphemes, substring, length);
                            assert(ExprModel::Lit(strings_view(g0)) == e1@);
                            assert(ExprModel::Lit(strings_view(graphemes@)) == spec_remove_substring(e1@, *substring, length as int));
                            let lit = Expression::Literal(graphemes);
                            assert(lit@ == spec_remove_substring(e1@, *substring, length as int));
                            assert(expr2@ == e2@);
                            let r = Expression::Concatenation(Box::new(lit), expr2);
                            assert(e1@ is Lit);
                            assert(spec_remove_substring(t@, *substring, length as int) == ExprModel::Cat(
                                Box::new(spec_remove_substring(e1@, *substring, length as int)), Box::new(e2@)));
                            assert(r@ == spec_remove_substring(t@, *substring, length as int));
                            r
                        },
                        other => {
                            let r = Expression::Concatenation(Box::new(other), expr2);
                            assert(r@ == spec_remove_substring(t@, *substring, length as int));
                            r
                        },
                    },
                    Substring::Suffix => match *expr2 {
                        Expression::Literal(mut graphemes) => {
                            assert(e2@ == ExprModel::Lit(strings_view(graphemes@)));
                            let ghost g0 = graphemes@;
                            remove_graphemes(&mut graphemes, substring, length);
                            assert(ExprModel::Lit(strings_view(g0)) == e2@);
                            let lit = Expression::Literal(graphemes);
                            assert(lit@ == spec_remove_substring(e2@, *substring, length as int));
                            assert(expr1@ == e1@);
                            let r = Expression::Concatenation(expr1, Box::new(lit));
                            assert(e2@ is Lit);
                            assert(spec_remove_substring(t@, *substring, length as int) == ExprModel::Cat(
                                Box::new(e1@), Box::new(spec_remove_substring(e2@, *substring, length as int))));
                            assert(r@ == spec_remove_substring(t@, *substring, length as int));
                            r
                        },
                        other => {
                            let r = Expression::Concatenation(expr1, Box::new(other));
                            assert(r@ == spec_remove_substring(t@, *substring, length as int));
                            r
                        },
                    },
                }
            },
            Expression::Literal(mut graphemes) => {
                remove_graphemes(&mut graphemes, substring, length);
                let r = Expression::Literal(graphemes);
                assert(r@ == spec_remove_substring(t@, *substring, length as int));
                r
            },
            other => {
                assert(other@ == spec_remove_substring(t@, *substring, length as int));
                other
            },
        };
        assert(result@ == spec_remove_substring(t@, *substring, length as int));
        *self = result;
    }

    /// The graphemes of a literal, or of the literal on the given side of a concatenation.
    pub fn value(&self, substring: Option<&Substring>) -> (r: Option<Vec<&str>>)
        ensures
            match r {
                Some(v) => spec_value(self@, side(substring)) == Some(strs_view(v@)),
                None => spec_value(self@, side(substring)) is None,
            },
        decreases self,
    {
        match self {
            Expression::Concatenation(expr1, expr2) => match substring {
                Some(value) => match value {
                    Substring::Prefix => expr1.value(None),
                    Substring::Suffix => expr2.value(None),
                },
                None => None,
            },
            Expression::Literal(graphemes) => {
                let mut v: Vec<&str> = Vec::new();
                let mut i: usize = 0;
                while i < graphemes.len()
                    invariant
                        i <= graphemes@.len(),
                        v@.len() == i,
                        forall|j: int| 0 <= j < i ==> (#[trigger] v@[j])@ == graphemes@[j]@,
                    decreases graphemes.len() - i,
                {
                    let t = graphemes[i].as_str();
                    v.push(t);
                    i = i + 1;
                }
                proof {
                    assert(strs_view(v@) =~= strings_view(graphemes@));
                }
                Some(v)
            },
            _ => None,
        }
    }
}


/// The number of leading graphemes that two sequences share.
pub open spec fn common_prefix_len(x: Seq<Seq<char>>, y: Seq<Seq<char>>) -> nat
    decreases x.len(),
{
    if x.len() == 0 || y.len() == 0 || x[0] != y[0] {
        0
    } else {
        1 + common_prefix_len(x.drop_first(), y.drop_first())
    }
}

/// The common prefix length is the first position where the sequences differ or one ends.
pub proof fn lemma_common_prefix_len(x: Seq<Seq<char>>, y: Seq<Seq<char>>, n: int)
    requires
        0 <= n <= x.len(),
        n <= y.len(),
        forall|j: int| 0 <= j < n ==> #[trigger] x[j] == y[j],
        n == x.len() || n == y.len() || x[n] != y[n],
    ensures
        common_prefix_len(x, y) == n,
    decreases n,
{
    if n > 0 {
        assert(x[0] == y[0]);
        assert forall|j: int| 0 <= j < n - 1 implies #[trigger] x.drop_first()[j] == y.drop_first()[j] by {
            assert(x[j + 1] == y[j + 1]);
        }
        lemma_common_prefix_len(x.drop_first(), y.drop_first(), n - 1);
    }
}

/// The graphemes that both sequences share at the given side.
pub open spec fn common_graphemes(x: Seq<Seq<char>>, y: Seq<Seq<char>>, substring: Substring) -> Seq<Seq<char>> {
    match substring {
        Substring::Prefix => x.take(common_prefix_len(x, y) as int),
        Substring::Suffix => x.skip(x.len() - common_prefix_len(x.reverse(), y.reverse())),
    }
}

/// The graphemes that `value` reads from the given side, or none.
pub open spec fn value_or_empty(m: ExprModel, substring: Substring) -> Seq<Seq<char>> {
    match spec_value(m, Some(substring)) {
        Some(g) => g,
        None => Seq::empty(),
    }
}

/// The text that two expressions share at the given side, if they share any grapheme there.
pub open spec fn spec_find_common_substring(a: ExprModel, b: ExprModel, substring: Substring) -> Option<Seq<char>> {
    let c = common_graphemes(value_or_empty(a, substring), value_or_empty(b, substring), substring);
    if c.len() == 0 {
        None
    } else {
        Some(c.flatten())
    }
}

/// The number of bytes of the UTF-8 encoding of a text, as `str::len` gives it.
pub open spec fn byte_len(s: Seq<char>) -> int {
    (vstd::utf8::encode_utf8(s).len() as usize) as int
}

/// Appends the concatenation of the given strings to `out`.
fn append_all(out: &mut String, g: &[&str])
    ensures
        final(out)@ == old(out)@ + strs_view(g@).flatten(),
{
    let mut i: usize = 0;
    while i < g.len()
        invariant
            i <= g@.len(),
            out@ == old(out)@ + strs_view(g@.take(i as int)).flatten(),
        decreases g.len() - i,
    {
        proof {
            assert(strs_view(g@.take(i + 1)) =~= strs_view(g@.take(i as int)).push(g@[i as int]@));
            strs_view(g@.take(i as int)).lemma_flatten_push(g@[i as int]@);
        }
        out.append(g[i]);
        i = i + 1;
    }
    proof {
        assert(g@.take(i as int) =~= g@);
    }
}

/// The text that `a` and `b` share at the given side, if they share any grapheme there.
pub fn find_common_substring(a: &Expression, b: &Expression, substring: &Substring) -> (r: Option<String>)
    ensures
        match r {
            Some(v) => spec_find_common_substring(a@, b@, *substring) == Some(v@),
            None => spec_find_common_substring(a@, b@, *substring) is None,
        },
{
    find_common(a, b, substring).0
}

/// The text that `a` and `b` share at the given side, if any, and its number of graphemes.
fn find_common(a: &Expression, b: &Expression, substring: &Substring) -> (r: (Option<String>, usize))
    ensures
        match r.0 {
            Some(v) => spec_find_common_substring(a@, b@, *substring) == Some(v@),
            None => spec_find_common_substring(a@, b@, *substring) is None,
        },
        r.1 == common_count(a@, b@, *substring),
{
    let graphemes_a = match a.value(Some(substring)) {
        Some(v) => v,
        None => Vec::new(),
    };
    let graphemes_b = match b.value(Some(substring)) {
        Some(v) => v,
        None => Vec::new(),
    };
    let ghost x = value_or_empty(a@, *substring);
    let ghost y = value_or_empty(b@, *substring);
    assert(strs_view(graphemes_a@) == x);
    assert(strs_view(graphemes_b@) == y);
    let la = graphemes_a.len();
    let lb = graphemes_b.len();
    let mut i: usize = 0;
    let is_prefix = match substring {
        Substring::Prefix => true,
        Substring::Suffix => false,
    };
    if is_prefix {
        while i < la && i < lb && str_eq(graphemes_a[i], graphemes_b[i])
            invariant
                la == x.len(),
                lb == y.len(),
                strs_view(graphemes_a@) == x,
                strs_view(graphemes_b@) == y,
                i <= la,
                i <= lb,
                forall|j: int| 0 <= j < i ==> #[trigger] x[j] == y[j],
            decreases la - i,
        {
            i = i + 1;
        }
        proof {
            lemma_common_prefix_len(x, y, i as int);
        }
    } else {
        while i < la && i < lb && str_eq(graphemes_a[la - 1 - i], graphemes_b[lb - 1 - i])
            invariant
                la == x.len(),
                lb == y.len(),
                strs_view(graphemes_a@) == x,
                strs_view(graphemes_b@) == y,
                i <= la,
                i <= lb,
                forall|j: int| 0 <= j < i ==> #[trigger] x.reverse()[j] == y.reverse()[j],
            decreases la - i,
        {
            i = i + 1;
        }
        proof {
            lemma_common_prefix_len(x.reverse(), y.reverse(), i as int);
        }
    }
    if i == 0 {
        return (None, 0);
    }
    let start: usize = if is_prefix { 0 } else { la - i };
    let mut common = String::new();
    append_all(&mut common, vstd::slice::slice_subrange(graphemes_a.as_slice(), start, start + i));
    proof {
        assert(strs_view(graphemes_a@.subrange(start as int, (start + i) as int)) =~= common_graphemes(x, y, *substring));
    }
    (Some(common), i)
}


/// The number of graphemes that two expressions share at the given side.
pub open spec fn common_count(a: ExprModel, b: ExprModel, substring: Substring) -> int {
    common_graphemes(value_or_empty(a, substring), value_or_empty(b, substring), substring).len() as int
}

/// The two expressions after the graphemes that they share at the given side have
/// been taken from both.
pub open spec fn spec_remove_common_substring(a: ExprModel, b: ExprModel, substring: Substring) -> (ExprModel, ExprModel) {
    if common_count(a, b, substring) == 0 {
        (a, b)
    } else {
        (
            spec_remove_substring(a, substring, common_count(a, b, substring)),
            spec_remove_substring(b, substring, common_count(a, b, substring)),
        )
    }
}

/// The graphemes that an expression reads from a side can be taken from it.
proof fn lemma_remove_value_ok(m: ExprModel, substring: Substring, k: int)
    requires
        0 <= k <= value_or_empty(m, substring).len(),
    ensures
        remove_substring_ok(m, substring, k),
{
    reveal_with_fuel(spec_value, 2);
}

/// The shared graphemes can be taken from both expressions.
proof fn lemma_common_count(a: ExprModel, b: ExprModel, substring: Substring)
    ensures
        0 <= common_count(a, b, substring) <= value_or_empty(a, substring).len(),
        common_count(a, b, substring) <= value_or_empty(b, substring).len(),
        remove_substring_ok(a, substring, common_count(a, b, substring)),
        remove_substring_ok(b, substring, common_count(a, b, substring)),
        (common_count(a, b, substring) == 0) == (spec_find_common_substring(a, b, substring) is None),
{
    let x = value_or_empty(a, substring);
    let y = value_or_empty(b, substring);
    match substring {
        Substring::Prefix => lemma_common_prefix_len_bounds(x, y),
        Substring::Suffix => lemma_common_prefix_len_bounds(x.reverse(), y.reverse()),
    }
    lemma_remove_value_ok(a, substring, common_count(a, b, substring));
    lemma_remove_value_ok(b, substring, common_count(a, b, substring));
}

/// Takes the graphemes that `a` and `b` share at the given side from both and returns
/// their text.
pub fn remove_common_substring(a: &mut Expression, b: &mut Expression, substring: Substring) -> (r: Option<String>)
    ensures
        (final(a)@, final(b)@) == spec_remove_common_substring(old(a)@, old(b)@, substring),
        match r {
            Some(v) => spec_find_common_substring(old(a)@, old(b)@, substring) == Some(v@),
            None => spec_find_common_substring(old(a)@, old(b)@, substring) is None,
        },
{
    proof {
        lemma_common_count(a@, b@, substring);
    }
    let (common_substring, n) = find_common(a, b, &substring);
    if n > 0 {
        a.remove_substring(&substring, n);
        b.remove_substring(&substring, n);
    }
    common_substring
}

/// The value of an optional expression.
pub open spec fn opt_model(e: Option<Expression>) -> Option<ExprModel> {
    match e {
        Some(x) => Some(x@),
        None => None,
    }
}

/// The repetition of an expression any number of times, if there is an expression.
pub fn repeat_zero_or_more_times(expr: &Option<Expression>) -> (r: Option<Expression>)
    ensures
        opt_model(r) == match opt_model(*expr) {
            Some(m) => Some(ExprModel::Rep(Box::new(m), Quantifier::KleeneStar)),
            None => None,
        },
{
    if let Some(value) = expr {
        Some(Expression::new_repetition(value.copy(), Quantifier::KleeneStar))
    } else {
        None
    }
}

/// The concatenation of two expressions, merging adjacent literals.
pub open spec fn spec_concatenate(a: Option<ExprModel>, b: Option<ExprModel>) -> Option<ExprModel> {
    match (a, b) {
        (Some(e1), Some(e2)) => Some(
            if e1.is_empty() {
                e2
            } else if e2.is_empty() {
                e1
            } else if e1 is Lit && e2 is Lit {
                spec_new_literal(e1->Lit_0.flatten() + e2->Lit_0.flatten())
            } else if e1 is Lit && e2 is Cat && *e2->Cat_0 is Lit {
                ExprModel::Cat(
                    Box::new(spec_new_literal(e1->Lit_0.flatten() + e2->Cat_0->Lit_0.flatten())),
                    e2->Cat_1,
                )
            } else if e2 is Lit && e1 is Cat && *e1->Cat_1 is Lit {
                ExprModel::Cat(
                    e1->Cat_0,
                    Box::new(spec_new_literal(e1->Cat_1->Lit_0.flatten() + e2->Lit_0.flatten())),
                )
            } else {
                ExprModel::Cat(Box::new(e1), Box::new(e2))
            },
        ),
        _ => None,
    }
}

/// A literal of the text of the graphemes of two literals.
fn joined_literal(first: &Vec<String>, second: &Vec<String>) -> (r: Expression)
    ensures
        r@ == spec_new_literal(strings_view(first@).flatten() + strings_view(second@).flatten()),
        graphemes_of(strings_view(first@).flatten() + strings_view(second@).flatten()).flatten()
            == strings_view(first@).flatten() + strings_view(second@).flatten(),
{
    let mut text = String::new();
    append_strings(&mut text, first);
    append_strings(&mut text, second);
    Expression::new_literal(text.as_str())
}

/// Appends the concatenation of the given strings to `out`.
fn append_strings(out: &mut String, g: &Vec<String>)
    ensures
        final(out)@ == old(out)@ + strings_view(g@).flatten(),
{
    let mut i: usize = 0;
    while i < g.len()
        invariant
            i <= g@.len(),
            out@ == old(out)@ + strings_view(g@.take(i as int)).flatten(),
        decreases g.len() - i,
    {
        proof {
            assert(strings_view(g@.take(i + 1)) =~= strings_view(g@.take(i as int)).push(g@[i as int]@));
            strings_view(g@.take(i as int)).lemma_flatten_push(g@[i as int]@);
        }
        out.append(g[i].as_str());
        i = i + 1;
    }
    proof {
        assert(g@.take(i as int) =~= g@);
    }
}

/// An expression and its value have the same form.
pub proof fn lemma_model_form(e: Expression)
    ensures
        (e@ is Alt) == (e is Alternation),
        (e@ is Cat) == (e is Concatenation),
        (e@ is Lit) == (e is Literal),
        (e@ is Rep) == (e is Repetition),
        e is Concatenation ==> *e@->Cat_0 == e->Concatenation_0@ && *e@->Cat_1 == e->Concatenation_1@,
        e is Literal ==> e@->Lit_0 == strings_view(e->Literal_0@),
        e is Repetition ==> *e@->Rep_0 == e->Repetition_0@ && e@->Rep_1 == e->Repetition_1,
{
}

/// The concatenation of two optional expressions; `None` if either is missing.
/// Adjacent literals are merged into one.
pub fn concatenate(a: &Option<Expression>, b: &Option<Expression>) -> (r: Option<Expression>)
    ensures
        opt_model(r) == spec_concatenate(opt_model(*a), opt_model(*b)),
        forall|s: Seq<char>|
            opt_accepts(opt_model(r), s) == match (opt_model(*a), opt_model(*b)) {
                (Some(e1), Some(e2)) => accepts(ExprModel::Cat(Box::new(e1), Box::new(e2)), s),
                _ => false,
            },
{
    if a.is_none() || b.is_none() {
        return None;
    }
    let expr1 = a.as_ref().unwrap();
    let expr2 = b.as_ref().unwrap();
    proof {
        lemma_model_form(*expr1);
        lemma_model_form(*expr2);
        if expr1 is Concatenation {
            lemma_model_form(*expr1->Concatenation_0);
            lemma_model_form(*expr1->Concatenation_1);
        }
        if expr2 is Concatenation {
            lemma_model_form(*expr2->Concatenation_0);
            lemma_model_form(*expr2->Concatenation_1);
        }
    }
    let result = concatenate_present(expr1, expr2);
    proof {
        assert forall|s: Seq<char>| opt_accepts(opt_model(result), s) == accepts(
            ExprModel::Cat(Box::new(expr1@), Box::new(expr2@)),
            s,
        ) by {
            lemma_accepts_concatenate(expr1@, expr2@, s);
        }
    }
    result
}

/// The concatenation of two present expressions.
fn concatenate_present(expr1: &Expression, expr2: &Expression) -> (r: Option<Expression>)
    ensures
        opt_model(r) == spec_concatenate(Some(expr1@), Some(expr2@)),
        spelled(spec_concatenate_text(expr1@, expr2@)),
{
    proof {
        lemma_model_form(*expr1);
        lemma_model_form(*expr2);
        if expr1 is Concatenation {
            lemma_model_form(*expr1->Concatenation_0);
            lemma_model_form(*expr1->Concatenation_1);
        }
        if expr2 is Concatenation {
            lemma_model_form(*expr2->Concatenation_0);
            lemma_model_form(*expr2->Concatenation_1);
        }
    }
    if expr1.is_empty() {
        return Some(expr2.copy());
    }
    if expr2.is_empty() {
        return Some(expr1.copy());
    }
    if let (Expression::Literal(graphemes_a), Expression::Literal(graphemes_b)) = (expr1, expr2) {
        return Some(joined_literal(graphemes_a, graphemes_b));
    }
    if let (Expression::Literal(graphemes_a), Expression::Concatenation(first, second)) = (expr1, expr2) {
        if let Expression::Literal(graphemes_first) = &**first {
            let literal = joined_literal(graphemes_a, graphemes_first);
            return Some(Expression::new_concatenation(literal, second.copy()));
        }
    }
    if let (Expression::Literal(graphemes_b), Expression::Concatenation(first, second)) = (expr2, expr1) {
        if let Expression::Literal(graphemes_second) = &**second {
            let literal = joined_literal(graphemes_second, graphemes_b);
            return Some(Expression::new_concatenation(first.copy(), literal));
        }
    }
    Some(Expression::new_concatenation(expr1.copy(), expr2.copy()))
}


/// The union of two expressions that share no text at either side any more.
pub open spec fn spec_union_core(e1: ExprModel, e2: ExprModel) -> ExprModel {
    if e1.is_empty() {
        ExprModel::Rep(Box::new(e2), Quantifier::QuestionMark)
    } else if e2.is_empty() {
        ExprModel::Rep(Box::new(e1), Quantifier::QuestionMark)
    } else if e1 is Rep && e1->Rep_1 == Quantifier::QuestionMark {
        ExprModel::Rep(Box::new(spec_new_alternation(*e1->Rep_0, e2)), Quantifier::QuestionMark)
    } else if e2 is Rep && e2->Rep_1 == Quantifier::QuestionMark {
        ExprModel::Rep(Box::new(spec_new_alternation(e1, *e2->Rep_0)), Quantifier::QuestionMark)
    } else {
        spec_new_alternation(e1, e2)
    }
}

/// The alternation that `spec_union_core` builds can be measured.
pub open spec fn union_core_ok(e1: ExprModel, e2: ExprModel) -> bool {
    if e1.is_empty() || e2.is_empty() {
        true
    } else if e1 is Rep && e1->Rep_1 == Quantifier::QuestionMark {
        alternation_ok(*e1->Rep_0, e2)
    } else if e2 is Rep && e2->Rep_1 == Quantifier::QuestionMark {
        alternation_ok(e1, *e2->Rep_0)
    } else {
        alternation_ok(e1, e2)
    }
}

/// The union of two different expressions: their common prefix and suffix are factored
/// out and the rest joined by `spec_union_core`.
pub open spec fn spec_union_distinct(e1: ExprModel, e2: ExprModel) -> ExprModel {
    let prefix = spec_find_common_substring(e1, e2, Substring::Prefix);
    let (a1, b1) = spec_remove_common_substring(e1, e2, Substring::Prefix);
    let suffix = spec_find_common_substring(a1, b1, Substring::Suffix);
    let (a2, b2) = spec_remove_common_substring(a1, b1, Substring::Suffix);
    let core = spec_union_core(a2, b2);
    let with_prefix = match prefix {
        Some(p) => ExprModel::Cat(Box::new(spec_new_literal(p)), Box::new(core)),
        None => core,
    };
    match suffix {
        Some(q) => ExprModel::Cat(Box::new(with_prefix), Box::new(spec_new_literal(q))),
        None => with_prefix,
    }
}

/// The union of two optional expressions.
pub open spec fn spec_union(a: Option<ExprModel>, b: Option<ExprModel>) -> Option<ExprModel> {
    match (a, b) {
        (Some(e1), Some(e2)) => if e1 != e2 {
            Some(spec_union_distinct(e1, e2))
        } else {
            a
        },
        (Some(_), None) => a,
        (None, Some(_)) => b,
        (None, None) => None,
    }
}

/// The union of two optional expressions stays within the literals that it trims and
/// builds alternations that can be measured.
pub open spec fn union_ok(a: Option<ExprModel>, b: Option<ExprModel>) -> bool {
    match (a, b) {
        (Some(e1), Some(e2)) => e1 == e2 || {
            let (a1, b1) = spec_remove_common_substring(e1, e2, Substring::Prefix);
            let (a2, b2) = spec_remove_common_substring(a1, b1, Substring::Suffix);
            union_core_ok(a2, b2)
        },
        _ => true,
    }
}

/// The union of two optional expressions: the other one if one is missing, the
/// expression itself if both are the same, and otherwise an expression that factors
/// out their common prefix and suffix and offers the rest as alternatives.
pub fn union(a: &Option<Expression>, b: &Option<Expression>) -> (r: Option<Expression>)
    requires
        union_ok(opt_model(*a), opt_model(*b)),
    ensures
        opt_model(r) == spec_union(opt_model(*a), opt_model(*b)),
        forall|s: Seq<char>|
            opt_accepts(opt_model(r), s) == (opt_accepts(opt_model(*a), s) || opt_accepts(
                opt_model(*b),
                s,
            )),
{
    match (a, b) {
        (Some(x), Some(y)) => {
            let mut expr1 = x.copy();
            let mut expr2 = y.copy();
            if !expr1.equals(&expr2) {
                let ghost e1 = expr1@;
                let ghost e2 = expr2@;
                let common_prefix = remove_common_substring(&mut expr1, &mut expr2, Substring::Prefix);
                let common_suffix = remove_common_substring(&mut expr1, &mut expr2, Substring::Suffix);
                proof {
                    lemma_model_form(expr1);
                    lemma_model_form(expr2);
                }
                let mut result: Option<Expression> = if expr1.is_empty() {
                    Some(Expression::new_repetition(expr2.copy(), Quantifier::QuestionMark))
                } else if expr2.is_empty() {
                    Some(Expression::new_repetition(expr1.copy(), Quantifier::QuestionMark))
                } else {
                    None
                };
                if result.is_none() {
                    if let Expression::Repetition(expr, quantifier) = &expr1 {
                        if *quantifier == Quantifier::QuestionMark {
                            let alternation = Expression::new_alternation(expr.copy(), expr2.copy());
                            result = Some(Expression::new_repetition(alternation, Quantifier::QuestionMark));
                        }
                    }
                }
                if result.is_none() {
                    if let Expression::Repetition(expr, quantifier) = &expr2 {
                        if *quantifier == Quantifier::QuestionMark {
                            let alternation = Expression::new_alternation(expr1.copy(), expr.copy());
                            result = Some(Expression::new_repetition(alternation, Quantifier::QuestionMark));
                        }
                    }
                }
                if result.is_none() {
                    result = Some(Expression::new_alternation(expr1.copy(), expr2.copy()));
                }
                assert(opt_model(result) == Some(spec_union_core(expr1@, expr2@)));
                if let Some(prefix) = common_prefix {
                    let core = result.unwrap();
                    result = Some(Expression::new_concatenation(Expression::new_literal(prefix.as_str()), core));
                }
                if let Some(suffix) = common_suffix {
                    let inner = result.unwrap();
                    result = Some(Expression::new_concatenation(inner, Expression::new_literal(suffix.as_str())));
                }
                assert(opt_model(result) == Some(spec_union_distinct(e1, e2)));
                proof {
                    assert forall|s: Seq<char>| opt_accepts(opt_model(result), s) == (accepts(e1, s) || accepts(e2, s)) by {
                        lemma_accepts_union_distinct(e1, e2, s);
                    }
                }
                result
            } else {
                Some(expr1)
            }
        },
        (Some(x), None) => Some(x.copy()),
        (None, Some(y)) => Some(y.copy()),
        (None, None) => None,
    }
}

} // verus!
