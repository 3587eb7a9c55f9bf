//! The suffix table of a grapheme cluster: its suffixes in lexicographic order with
//! the lengths of the prefixes that neighbouring suffixes share.
use crate::ast::strings_view;
use crate::cluster::GraphemeCluster;
use crate::regexp::lex_less;
use crate::substrings::{grapheme_values, values};
use crate::text::{decimal, from_chars, push_digits, push_str};
use vstd::prelude::*;

verus! {

broadcast use vstd::seq::group_seq_axioms, vstd::seq_lib::group_seq_properties;

/// `a` comes before `b` in lexicographic order of its strings, each string compared
/// by code points.
pub open spec fn strings_less(a: Seq<Seq<char>>, b: Seq<Seq<char>>) -> bool
    decreases a.len(),
{
    if a.len() == 0 {
        b.len() > 0
    } else if b.len() == 0 {
        false
    } else if a[0] != b[0] {
        lex_less(a[0], b[0])
    } else {
        strings_less(a.drop_first(), b.drop_first())
    }
}

/// Inserts the suffix starting at `i` after the suffixes that it does not come before.
pub open spec fn insert_suffix(g: Seq<Seq<char>>, s: Seq<int>, i: int) -> Seq<int>
    decreases s.len(),
{
    if s.len() == 0 {
        seq![i]
    } else if strings_less(g.skip(i), g.skip(s[0])) {
        seq![i] + s
    } else {
        seq![s[0]] + insert_suffix(g, s.drop_first(), i)
    }
}

/// The starting positions of the suffixes of the first `k` positions, sorted.
pub open spec fn sorted_suffixes(g: Seq<Seq<char>>, k: int) -> Seq<int>
    decreases k,
{
    if k <= 0 {
        Seq::empty()
    } else {
        insert_suffix(g, sorted_suffixes(g, k - 1), k - 1)
    }
}

/// The number of leading strings that two sequences share.
pub open spec fn shared_prefix_len(a: Seq<Seq<char>>, b: Seq<Seq<char>>) -> nat
    decreases a.len(),
{
    if a.len() == 0 || b.len() == 0 || a[0] != b[0] {
        0
    } else {
        1 + shared_prefix_len(a.drop_first(), b.drop_first())
    }
}

/// A suffix table.
pub struct SuffixTable {
    pub graphemes: Vec<String>,
    pub suffix_indices: Vec<usize>,
    pub suffix_lengths: Vec<usize>,
    pub longest_common_prefix_lengths: Vec<u32>,
}

/// Suffixes that start alike compare as the suffixes after their first strings.
proof fn lemma_suffix_step(v: Seq<Seq<char>>, i: int, j: int)
    requires
        0 <= i < v.len(),
        0 <= j < v.len(),
        v[i] == v[j],
    ensures
        strings_less(v.skip(i), v.skip(j)) == strings_less(v.skip(i + 1), v.skip(j + 1)),
        shared_prefix_len(v.skip(i), v.skip(j)) == 1 + shared_prefix_len(v.skip(i + 1), v.skip(j + 1)),
{
    assert(v.skip(i)[0] == v[i]);
    assert(v.skip(j)[0] == v[j]);
    assert(v.skip(i).drop_first() =~= v.skip(i + 1));
    assert(v.skip(j).drop_first() =~= v.skip(j + 1));
}

/// Suffixes that start with different strings share no prefix.
proof fn lemma_suffix_differ(v: Seq<Seq<char>>, i: int, j: int)
    requires
        0 <= i < v.len(),
        0 <= j < v.len(),
        v[i] != v[j],
    ensures
        strings_less(v.skip(i), v.skip(j)) == lex_less(v[i], v[j]),
        shared_prefix_len(v.skip(i), v.skip(j)) == 0,
{
    assert(v.skip(i)[0] == v[i]);
    assert(v.skip(j)[0] == v[j]);
}

/// Inserting at the first position whose suffix the new one comes before.
proof fn lemma_insert_suffix(g: Seq<Seq<char>>, s: Seq<int>, i: int, p: int)
    requires
        0 <= p <= s.len(),
        forall|j: int| 0 <= j < p ==> !strings_less(g.skip(i), g.skip(#[trigger] s[j])),
        p < s.len() ==> strings_less(g.skip(i), g.skip(s[p])),
    ensures
        insert_suffix(g, s, i) == s.insert(p, i),
    decreases s.len(),
{
    if s.len() == 0 {
        assert(s.insert(p, i) =~= seq![i]);
    } else if p == 0 {
        assert(s.insert(p, i) =~= seq![i] + s);
    } else {
        lemma_insert_suffix(g, s.drop_first(), i, p - 1);
        assert(s.insert(p, i) =~= seq![s[0]] + s.drop_first().insert(p - 1, i));
    }
}

/// Whether `a` comes before `b` in lexicographic order of code points.
fn chars_less(a: &str, b: &str) -> (r: bool)
    ensures
        r == lex_less(a@, b@),
{
    let ca = crate::text::to_chars(a);
    let cb = crate::text::to_chars(b);
    let mut i: usize = 0;
    while i < ca.len() && i < cb.len() && ca[i] == cb[i]
        invariant
            i <= ca@.len(),
            i <= cb@.len(),
            ca@ == a@,
            cb@ == b@,
            lex_less(a@, b@) == lex_less(a@.skip(i as int), b@.skip(i as int)),
        decreases ca.len() - i,
    {
        proof {
            assert(a@.skip(i as int).drop_first() =~= a@.skip(i + 1));
            assert(b@.skip(i as int).drop_first() =~= b@.skip(i + 1));
        }
        i = i + 1;
    }
    if i == ca.len() {
        i < cb.len()
    } else if i == cb.len() {
        false
    } else {
        (ca[i] as u32) < (cb[i] as u32)
    }
}

/// Whether the suffix starting at `i` comes before the one starting at `j`.
fn suffix_less(g: &Vec<String>, i: usize, j: usize) -> (r: bool)
    requires
        i <= g@.len(),
        j <= g@.len(),
    ensures
        r == strings_less(strings_view(g@).skip(i as int), strings_view(g@).skip(j as int)),
{
    let ghost v = strings_view(g@);
    let gn = g.len();
    let m = if gn - i < gn - j {
        gn - i
    } else {
        gn - j
    };
    let mut k: usize = 0;
    let mut same = true;
    while k < m && same
        invariant
            gn == g@.len(),
            i <= gn,
            j <= gn,
            m == (if gn - i < gn - j {
                gn - i
            } else {
                gn - j
            }),
            k <= m,
            v == strings_view(g@),
            same ==> strings_less(v.skip(i as int), v.skip(j as int)) == strings_less(
                v.skip(i + k),
                v.skip(j + k),
            ),
            !same ==> k < m && v[i + k] != v[j + k] && strings_less(v.skip(i as int), v.skip(j as int))
                == strings_less(v.skip(i + k), v.skip(j + k)),
            v.len() == gn,
        decreases m - k, if same { 1int } else { 0int },
    {
        let eq = crate::text::str_eq(g[i + k].as_str(), g[j + k].as_str());
        proof {
            assert(v[i + k] == g@[i + k]@);
            assert(v[j + k] == g@[j + k]@);
        }
        if eq {
            proof {
                lemma_suffix_step(v, i + k, j + k);
            }
            k = k + 1;
        } else {
            same = false;
        }
    }
    if same {
        proof {
            assert(v.skip(i + k).len() == 0 || v.skip(j + k).len() == 0);
        }
        i + k == gn && j + k < gn
    } else {
        proof {
            lemma_suffix_differ(v, i + k, j + k);
        }
        chars_less(g[i + k].as_str(), g[j + k].as_str())
    }
}

/// The number of leading strings that the suffixes at `i` and `j` share.
fn shared_prefix(g: &Vec<String>, i: usize, j: usize) -> (n: u32)
    requires
        i <= g@.len(),
        j <= g@.len(),
        g@.len() <= u32::MAX,
    ensures
        n == shared_prefix_len(strings_view(g@).skip(i as int), strings_view(g@).skip(j as int)),
{
    let ghost v = strings_view(g@);
    let gn = g.len();
    let m = if gn - i < gn - j {
        gn - i
    } else {
        gn - j
    };
    let mut k: usize = 0;
    let mut same = true;
    while k < m && same
        invariant
            gn == g@.len(),
            i <= gn,
            j <= gn,
            gn <= u32::MAX,
            m == (if gn - i < gn - j {
                gn - i
            } else {
                gn - j
            }),
            k <= m,
            v == strings_view(g@),
            v.len() == gn,
            shared_prefix_len(v.skip(i as int), v.skip(j as int)) == k + if same {
                shared_prefix_len(v.skip(i + k), v.skip(j + k))
            } else {
                0
            },
        decreases m - k, if same { 1int } else { 0int },
    {
        let eq = crate::text::str_eq(g[i + k].as_str(), g[j + k].as_str());
        proof {
            assert(v[i + k] == g@[i + k]@);
            assert(v[j + k] == g@[j + k]@);
        }
        if eq {
            proof {
                lemma_suffix_step(v, i + k, j + k);
            }
            k = k + 1;
        } else {
            proof {
                lemma_suffix_differ(v, i + k, j + k);
            }
            same = false;
        }
    }
    proof {
        if same {
            assert(v.skip(i + k).len() == 0 || v.skip(j + k).len() == 0);
        }
    }
    k as u32
}

/// The starting positions of the suffixes of `graphemes`, sorted by suffix.
fn suffix_indices(graphemes: &Vec<String>) -> (suffix_indices: Vec<usize>)
    ensures
        suffix_indices@.map_values(|x: usize| x as int) == sorted_suffixes(
            strings_view(graphemes@),
            graphemes@.len() as int,
        ),
        suffix_indices@.len() == graphemes@.len(),
        forall|k: int|
            0 <= k < suffix_indices@.len() ==> #[trigger] suffix_indices@[k] < graphemes@.len(),
{
    let ghost v = strings_view(graphemes@);
    let n = graphemes.len();
    let mut suffix_indices: Vec<usize> = Vec::new();
    let mut i: usize = 0;
    while i < n
        invariant
            i <= n,
            n == graphemes@.len(),
            v == strings_view(graphemes@),
            suffix_indices@.map_values(|x: usize| x as int) == sorted_suffixes(v, i as int),
            forall|k: int| 0 <= k < suffix_indices@.len() ==> #[trigger] suffix_indices@[k] < i,
            suffix_indices@.len() == i,
        decreases n - i,
    {
        let mut p: usize = 0;
        while p < suffix_indices.len() && !suffix_less(graphemes, i, suffix_indices[p])
            invariant
                p <= suffix_indices@.len(),
                forall|k: int| 0 <= k < suffix_indices@.len() ==> #[trigger] suffix_indices@[k] < i,
                i < n,
                n == graphemes@.len(),
                v == strings_view(graphemes@),
                forall|j: int|
                    0 <= j < p ==> !strings_less(
                        v.skip(i as int),
                        v.skip(#[trigger] suffix_indices@[j] as int),
                    ),
            decreases suffix_indices.len() - p,
        {
            p = p + 1;
        }
        proof {
            let s = suffix_indices@.map_values(|x: usize| x as int);
            assert forall|j: int| 0 <= j < p implies !strings_less(
                v.skip(i as int),
                v.skip(#[trigger] s[j]),
            ) by {
                assert(s[j] == suffix_indices@[j] as int);
            }
            if p < s.len() {
                assert(s[p as int] == suffix_indices@[p as int] as int);
            }
            lemma_insert_suffix(v, s, i as int, p as int);
        }
        let ghost before = suffix_indices@;
        suffix_indices.insert(p, i);
        proof {
            assert(suffix_indices@.map_values(|x: usize| x as int) =~= before.map_values(
                |x: usize| x as int,
            ).insert(p as int, i as int));
        }
        i = i + 1;
    }
    suffix_indices
}

/// The length of each suffix, in the order of `suffix_indices`.
fn suffix_lengths(suffix_indices: &Vec<usize>, n: usize) -> (suffix_lengths: Vec<usize>)
    requires
        forall|j: int| 0 <= j < suffix_indices@.len() ==> #[trigger] suffix_indices@[j] < n,
    ensures
        suffix_lengths@.len() == suffix_indices@.len(),
        forall|j: int|
            0 <= j < suffix_lengths@.len() ==> #[trigger] suffix_lengths@[j] == n - suffix_indices@[j],
{
    let mut suffix_lengths: Vec<usize> = Vec::new();
    let mut k: usize = 0;
    while k < suffix_indices.len()
        invariant
            k <= suffix_indices@.len(),
            forall|j: int| 0 <= j < suffix_indices@.len() ==> #[trigger] suffix_indices@[j] < n,
            suffix_lengths@.len() == k,
            forall|j: int| 0 <= j < k ==> #[trigger] suffix_lengths@[j] == n - suffix_indices@[j],
        decreases suffix_indices.len() - k,
    {
        suffix_lengths.push(n - suffix_indices[k]);
        k = k + 1;
    }
    suffix_lengths
}

/// 0, then for each suffix after the first the length of the prefix that it shares
/// with the suffix before it.
fn lcp_lengths(graphemes: &Vec<String>, suffix_indices: &Vec<usize>) -> (lcp: Vec<u32>)
    requires
        graphemes@.len() <= u32::MAX,
        forall|j: int|
            0 <= j < suffix_indices@.len() ==> #[trigger] suffix_indices@[j] < graphemes@.len(),
    ensures
        lcp@.len() == if suffix_indices@.len() == 0 {
            1
        } else {
            suffix_indices@.len()
        },
        lcp@[0] == 0,
        forall|k: int|
            1 <= k < lcp@.len() ==> #[trigger] lcp@[k] == shared_prefix_len(
                strings_view(graphemes@).skip(suffix_indices@[k - 1] as int),
                strings_view(graphemes@).skip(suffix_indices@[k] as int),
            ),
{
    let ghost v = strings_view(graphemes@);
    let n = graphemes.len();
    let mut lcp: Vec<u32> = Vec::new();
    lcp.push(0);
    let mut q: usize = 1;
    while q < suffix_indices.len()
        invariant
            1 <= q,
            q <= suffix_indices@.len() || (suffix_indices@.len() == 0 && q == 1),
            n == graphemes@.len(),
            n <= u32::MAX,
            v == strings_view(graphemes@),
            forall|j: int| 0 <= j < suffix_indices@.len() ==> #[trigger] suffix_indices@[j] < n,
            lcp@.len() == q,
            lcp@[0] == 0,
            forall|j: int|
                1 <= j < q ==> #[trigger] lcp@[j] == shared_prefix_len(
                    v.skip(suffix_indices@[j - 1] as int),
                    v.skip(suffix_indices@[j] as int),
                ),
        decreases suffix_indices.len() - q,
    {
        let x = shared_prefix(graphemes, suffix_indices[q - 1], suffix_indices[q]);
        lcp.push(x);
        q = q + 1;
    }
    lcp
}

impl SuffixTable {
    /// The suffix table of the values of a cluster's graphemes.
    pub fn from(cluster: &GraphemeCluster) -> (t: Self)
        requires
            cluster@.graphemes.len() <= u32::MAX,
        ensures
            strings_view(t.graphemes@) == values(cluster@.graphemes),
            t.suffix_indices@.map_values(|x: usize| x as int) == sorted_suffixes(
                values(cluster@.graphemes),
                cluster@.graphemes.len() as int,
            ),
            t.suffix_lengths@.len() == t.suffix_indices@.len(),
            forall|k: int|
                0 <= k < t.suffix_lengths@.len() ==> #[trigger] t.suffix_lengths@[k]
                    == cluster@.graphemes.len() - t.suffix_indices@[k],
            t.longest_common_prefix_lengths@.len() == if t.suffix_indices@.len() == 0 {
                1
            } else {
                t.suffix_indices@.len()
            },
            t.longest_common_prefix_lengths@.len() > 0 && t.longest_common_prefix_lengths@[0] == 0,
            forall|k: int|
                1 <= k < t.longest_common_prefix_lengths@.len() ==> #[trigger] t.longest_common_prefix_lengths@[k]
                    == shared_prefix_len(
                    values(cluster@.graphemes).skip(t.suffix_indices@[k - 1] as int),
                    values(cluster@.graphemes).skip(t.suffix_indices@[k] as int),
                ),
    {
        let graphemes = grapheme_values(cluster.graphemes.as_slice());
        let suffix_indices = suffix_indices(&graphemes);
        let suffix_lengths = suffix_lengths(&suffix_indices, graphemes.len());
        let lcp = lcp_lengths(&graphemes, &suffix_indices);
        SuffixTable {
            graphemes,
            suffix_indices,
            suffix_lengths,
            longest_common_prefix_lengths: lcp,
        }
    }
}

/// The separator between the columns of a row of the table.
pub open spec fn column_separator() -> Seq<char> {
    "   | "@
}

/// A row of the table: the suffix's position, the length of the prefix it shares
/// with the suffix before it, its length, and the suffix itself.
pub open spec fn row_text(g: Seq<Seq<char>>, idx: nat, lcp: nat, len: nat) -> Seq<char> {
    decimal(idx) + column_separator() + decimal(lcp) + column_separator() + decimal(len)
        + column_separator() + g.skip(idx as int).flatten()
}

impl SuffixTable {
    /// The rows of the table, one for each length of a shared prefix.
    pub fn rows(&self) -> (rows: Vec<String>)
        requires
            self.graphemes@.len() <= u32::MAX,
            self.longest_common_prefix_lengths@.len() <= self.suffix_indices@.len(),
            self.longest_common_prefix_lengths@.len() <= self.suffix_lengths@.len(),
            forall|k: int|
                0 <= k < self.suffix_indices@.len() ==> #[trigger] self.suffix_indices@[k]
                    <= self.graphemes@.len(),
            forall|k: int|
                0 <= k < self.suffix_lengths@.len() ==> #[trigger] self.suffix_lengths@[k]
                    <= u32::MAX,
        ensures
            rows@.len() == self.longest_common_prefix_lengths@.len(),
            forall|k: int|
                0 <= k < rows@.len() ==> (#[trigger] rows@[k])@ == row_text(
                    strings_view(self.graphemes@),
                    self.suffix_indices@[k] as nat,
                    self.longest_common_prefix_lengths@[k] as nat,
                    self.suffix_lengths@[k] as nat,
                ),
    {
        let ghost g = strings_view(self.graphemes@);
        let mut rows: Vec<String> = Vec::new();
        let mut i: usize = 0;
        while i < self.longest_common_prefix_lengths.len()
            invariant
                i <= self.longest_common_prefix_lengths@.len(),
                g == strings_view(self.graphemes@),
                self.graphemes@.len() <= u32::MAX,
                self.longest_common_prefix_lengths@.len() <= self.suffix_indices@.len(),
                self.longest_common_prefix_lengths@.len() <= self.suffix_lengths@.len(),
                forall|k: int|
                    0 <= k < self.suffix_indices@.len() ==> #[trigger] self.suffix_indices@[k]
                        <= self.graphemes@.len(),
                forall|k: int|
                    0 <= k < self.suffix_lengths@.len() ==> #[trigger] self.suffix_lengths@[k]
                        <= u32::MAX,
                rows@.len() == i,
                forall|k: int|
                    0 <= k < i ==> (#[trigger] rows@[k])@ == row_text(
                        g,
                        self.suffix_indices@[k] as nat,
                        self.longest_common_prefix_lengths@[k] as nat,
                        self.suffix_lengths@[k] as nat,
                    ),
            decreases self.longest_common_prefix_lengths.len() - i,
        {
            let idx = self.suffix_indices[i];
            let lcp = self.longest_common_prefix_lengths[i];
            let length = self.suffix_lengths[i];
            let mut v: Vec<char> = Vec::new();
            push_digits(&mut v, idx as u32, 10);
            push_str(&mut v, "   | ");
            push_digits(&mut v, lcp, 10);
            push_str(&mut v, "   | ");
            push_digits(&mut v, length as u32, 10);
            push_str(&mut v, "   | ");
            let ghost before = v@;
            let mut j: usize = idx;
            while j < self.graphemes.len()
                invariant
                    idx <= j <= self.graphemes@.len(),
                    g == strings_view(self.graphemes@),
                    v@ == before + g.subrange(idx as int, j as int).flatten(),
                decreases self.graphemes.len() - j,
            {
                proof {
                    assert(g.subrange(idx as int, j + 1) =~= g.subrange(idx as int, j as int).push(
                        g[j as int],
                    ));
                    g.subrange(idx as int, j as int).lemma_flatten_push(g[j as int]);
                }
                push_str(&mut v, self.graphemes[j].as_str());
                j = j + 1;
            }
            proof {
                assert(g.subrange(idx as int, g.len() as int) =~= g.skip(idx as int));
            }
            let row = from_chars(v.as_slice());
            let ghost prev = rows@;
            rows.push(row);
            proof {
                assert forall|k: int| 0 <= k < i implies (#[trigger] rows@[k])@ == row_text(
                    g,
                    self.suffix_indices@[k] as nat,
                    self.longest_common_prefix_lengths@[k] as nat,
                    self.suffix_lengths@[k] as nat,
                ) by {
                    assert(rows@[k] == prev[k]);
                }
            }
            i = i + 1;
        }
        rows
    }
}

} // verus!
