//! Detection of repeated substrings in a sequence of graphemes and their
//! replacement by repeated graphemes.
use crate::ast::strings_view;
use crate::cluster::{single_grapheme, singles};
use crate::grapheme::{
    grapheme_models, lemma_models_insert, lemma_models_push, lemma_models_remove, Grapheme,
    GraphemeModel,
};
use crate::regexp::config::RegExpConfig;
use crate::repetition::{
    copy_graphemes,
    lemma_written_out_concat, lemma_written_out_one, lemma_written_out_once, repeat_text, spelled,
    written_out,
};
use vstd::prelude::*;

verus! {

broadcast use vstd::seq::group_seq_axioms, vstd::seq_lib::group_seq_properties;

/// The values of a sequence of graphemes.
pub open spec fn values(gs: Seq<GraphemeModel>) -> Seq<Seq<char>> {
    gs.map_values(|g: GraphemeModel| g.value())
}

/// The values `vals[i..i + len]`.
pub open spec fn window(vals: Seq<Seq<char>>, i: int, len: int) -> Seq<Seq<char>> {
    vals.subrange(i, i + len)
}

/// `key` occurs in `vals` at position `i`.
pub open spec fn occurs_at(vals: Seq<Seq<char>>, key: Seq<Seq<char>>, i: int) -> bool {
    0 <= i && i + key.len() <= vals.len() && window(vals, i, key.len() as int) == key
}

/// The positions below `m` at which `key` occurs, in increasing order.
pub open spec fn occurrences_below(vals: Seq<Seq<char>>, key: Seq<Seq<char>>, m: int) -> Seq<int>
    decreases m,
{
    if m <= 0 {
        Seq::empty()
    } else if occurs_at(vals, key, m - 1) {
        occurrences_below(vals, key, m - 1).push(m - 1)
    } else {
        occurrences_below(vals, key, m - 1)
    }
}

/// The positions at which `key` occurs, in increasing order.
pub open spec fn occurrences(vals: Seq<Seq<char>>, key: Seq<Seq<char>>) -> Seq<int> {
    occurrences_below(vals, key, (vals.len() + 1) as int)
}

/// The positions of a vector of indices as integers.
pub open spec fn positions(v: Seq<usize>) -> Seq<int> {
    v.map_values(|x: usize| x as int)
}

/// The table of repeated substrings: each key is the values of between one and half as
/// many graphemes as there are, listed once, with the positions at which it occurs.
pub open spec fn is_substring_table(
    vals: Seq<Seq<char>>,
    table: Seq<(Seq<Seq<char>>, Seq<int>)>,
) -> bool {
    &&& forall|a: int, b: int|
        0 <= a < b < table.len() ==> (#[trigger] table[a]).0 != (#[trigger] table[b]).0
    &&& forall|t: int|
        0 <= t < table.len() ==> {
            &&& 1 <= (#[trigger] table[t]).0.len() <= vals.len() / 2
            &&& table[t].1 == occurrences(vals, table[t].0)
            &&& table[t].1.len() > 0
        }
    &&& forall|i: int, len: int|
        #![trigger window(vals, i, len)]
        1 <= len <= vals.len() / 2 && 0 <= i && i + len <= vals.len() ==> listed(
            table,
            window(vals, i, len),
        )
}

/// The table has an entry for `key`.
pub open spec fn listed(table: Seq<(Seq<Seq<char>>, Seq<int>)>, key: Seq<Seq<char>>) -> bool {
    exists|t: int| 0 <= t < table.len() && (#[trigger] table[t]).0 == key
}

/// The view of a table built of vectors.
pub open spec fn table_view(v: Seq<(Vec<String>, Vec<usize>)>) -> Seq<(Seq<Seq<char>>, Seq<int>)> {
    v.map_values(|e: (Vec<String>, Vec<usize>)| (strings_view(e.0@), positions(e.1@)))
}

/// The positions of `key` that the table holds after the rows before `i` and, in row
/// `i`, the keys shorter than `len` have been entered.
pub open spec fn expected_positions(
    vals: Seq<Seq<char>>,
    key: Seq<Seq<char>>,
    i: int,
    len: int,
) -> Seq<int> {
    if key.len() < len && occurs_at(vals, key, i) {
        occurrences_below(vals, key, i + 1)
    } else {
        occurrences_below(vals, key, i)
    }
}

/// The table holds exactly the keys of between one and half as many graphemes as
/// there are whose expected positions are not empty, each once, with those positions.
pub open spec fn table_holds(
    vals: Seq<Seq<char>>,
    table: Seq<(Seq<Seq<char>>, Seq<int>)>,
    i: int,
    len: int,
) -> bool {
    &&& forall|a: int, b: int|
        0 <= a < b < table.len() ==> (#[trigger] table[a]).0 != (#[trigger] table[b]).0
    &&& forall|t: int|
        0 <= t < table.len() ==> {
            &&& 1 <= (#[trigger] table[t]).0.len() <= vals.len() / 2
            &&& table[t].1 == expected_positions(vals, table[t].0, i, len)
            &&& table[t].1.len() > 0
        }
    &&& forall|key: Seq<Seq<char>>|
        1 <= key.len() <= vals.len() / 2 && (#[trigger] expected_positions(
            vals,
            key,
            i,
            len,
        )).len() > 0 ==> exists|t: int| 0 <= t < table.len() && (#[trigger] table[t]).0 == key
}

/// A position at which a key occurs is among its positions below any larger bound.
pub proof fn lemma_occurrence_listed(vals: Seq<Seq<char>>, key: Seq<Seq<char>>, i: int, m: int)
    requires
        occurs_at(vals, key, i),
        i < m,
    ensures
        occurrences_below(vals, key, m).contains(i),
    decreases m,
{
    if m - 1 == i {
        assert(occurrences_below(vals, key, m).last() == i);
    } else {
        lemma_occurrence_listed(vals, key, i, m - 1);
        let prev = occurrences_below(vals, key, m - 1);
        let j = choose|j: int| 0 <= j < prev.len() && prev[j] == i;
        if occurs_at(vals, key, m - 1) {
            assert(occurrences_below(vals, key, m)[j] == i);
        }
    }
}

/// Only the key of length `len` that occurs at `i` has its expected positions changed
/// by entering length `len` of row `i`.
proof fn lemma_expected_step(vs: Seq<Seq<char>>, key: Seq<Seq<char>>, k: Seq<Seq<char>>, i: int, len: int)
    requires
        k != key,
        key.len() == len,
        occurs_at(vs, key, i),
    ensures
        expected_positions(vs, k, i, len + 1) == expected_positions(vs, k, i, len),
{
    if k.len() == len && occurs_at(vs, k, i) {
        assert(k =~= key);
    }
}

/// Adding row `i`'s position to the key that occurs there keeps the table exact.
proof fn lemma_table_update(
    vs: Seq<Seq<char>>,
    tv: Seq<(Seq<Seq<char>>, Seq<int>)>,
    nv: Seq<(Seq<Seq<char>>, Seq<int>)>,
    key: Seq<Seq<char>>,
    i: int,
    len: int,
    t: int,
)
    requires
        table_holds(vs, tv, i, len),
        0 <= t < tv.len(),
        tv[t].0 == key,
        key.len() == len,
        occurs_at(vs, key, i),
        nv.len() == tv.len(),
        nv[t] == (key, tv[t].1.push(i)),
        forall|u: int| 0 <= u < nv.len() && u != t ==> #[trigger] nv[u] == tv[u],
    ensures
        table_holds(vs, nv, i, len + 1),
{
    assert(occurrences_below(vs, key, i + 1) == occurrences_below(vs, key, i).push(i));
    assert forall|a: int, b: int| 0 <= a < b < nv.len() implies (#[trigger] nv[a]).0 != (
    #[trigger] nv[b]).0 by {
        assert(tv[a].0 != tv[b].0);
    }
    assert forall|u: int| 0 <= u < nv.len() implies {
        &&& 1 <= (#[trigger] nv[u]).0.len() <= vs.len() / 2
        &&& nv[u].1 == expected_positions(vs, nv[u].0, i, len + 1)
        &&& nv[u].1.len() > 0
    } by {
        assert(1 <= tv[u].0.len() <= vs.len() / 2);
        if u != t {
            assert(tv[u].0 != key);
            lemma_expected_step(vs, key, tv[u].0, i, len);
        }
    }
    assert forall|k: Seq<Seq<char>>|
        1 <= k.len() <= vs.len() / 2 && (#[trigger] expected_positions(vs, k, i, len + 1)).len()
            > 0 implies exists|u: int| 0 <= u < nv.len() && (#[trigger] nv[u]).0 == k by {
        if k == key {
            assert(nv[t].0 == k);
        } else {
            lemma_expected_step(vs, key, k, i, len);
            assert(expected_positions(vs, k, i, len).len() > 0);
            let u = choose|u: int| 0 <= u < tv.len() && (#[trigger] tv[u]).0 == k;
            assert(nv[u].0 == k);
        }
    }
}

/// Entering a key that the table does not hold yet keeps the table exact.
proof fn lemma_table_insert(
    vs: Seq<Seq<char>>,
    tv: Seq<(Seq<Seq<char>>, Seq<int>)>,
    key: Seq<Seq<char>>,
    i: int,
    len: int,
)
    requires
        table_holds(vs, tv, i, len),
        forall|u: int| 0 <= u < tv.len() ==> (#[trigger] tv[u]).0 != key,
        key.len() == len,
        1 <= len <= vs.len() / 2,
        occurs_at(vs, key, i),
    ensures
        expected_positions(vs, key, i, len).len() == 0,
        table_holds(vs, tv.push((key, seq![i])), i, len + 1),
{
    let nv = tv.push((key, seq![i]));
    if expected_positions(vs, key, i, len).len() > 0 {
        let u = choose|u: int| 0 <= u < tv.len() && (#[trigger] tv[u]).0 == key;
        assert(false);
    }
    assert(occurrences_below(vs, key, i + 1) == occurrences_below(vs, key, i).push(i));
    assert(occurrences_below(vs, key, i + 1) =~= seq![i]);
    assert forall|a: int, b: int| 0 <= a < b < nv.len() implies (#[trigger] nv[a]).0 != (
    #[trigger] nv[b]).0 by {
        if b < tv.len() {
            assert(tv[a].0 != tv[b].0);
        } else {
            assert(tv[a].0 != key);
        }
    }
    assert forall|u: int| 0 <= u < nv.len() implies {
        &&& 1 <= (#[trigger] nv[u]).0.len() <= vs.len() / 2
        &&& nv[u].1 == expected_positions(vs, nv[u].0, i, len + 1)
        &&& nv[u].1.len() > 0
    } by {
        if u < tv.len() {
            assert(1 <= tv[u].0.len() <= vs.len() / 2);
            assert(tv[u].0 != key);
            lemma_expected_step(vs, key, tv[u].0, i, len);
        }
    }
    assert forall|k: Seq<Seq<char>>|
        1 <= k.len() <= vs.len() / 2 && (#[trigger] expected_positions(vs, k, i, len + 1)).len()
            > 0 implies exists|u: int| 0 <= u < nv.len() && (#[trigger] nv[u]).0 == k by {
        if k == key {
            assert(nv[tv.len() as int].0 == k);
        } else {
            lemma_expected_step(vs, key, k, i, len);
            let u = choose|u: int| 0 <= u < tv.len() && (#[trigger] tv[u]).0 == k;
            assert(nv[u].0 == k);
        }
    }
}

/// Where no expected positions change, the table stays exact.
proof fn lemma_table_same(
    vs: Seq<Seq<char>>,
    tv: Seq<(Seq<Seq<char>>, Seq<int>)>,
    i: int,
    len: int,
    i2: int,
    len2: int,
)
    requires
        table_holds(vs, tv, i, len),
        forall|k: Seq<Seq<char>>|
            1 <= k.len() <= vs.len() / 2 ==> #[trigger] expected_positions(vs, k, i2, len2)
                == expected_positions(vs, k, i, len),
    ensures
        table_holds(vs, tv, i2, len2),
{
    assert forall|u: int| 0 <= u < tv.len() implies {
        &&& 1 <= (#[trigger] tv[u]).0.len() <= vs.len() / 2
        &&& tv[u].1 == expected_positions(vs, tv[u].0, i2, len2)
        &&& tv[u].1.len() > 0
    } by {
        assert(expected_positions(vs, tv[u].0, i2, len2) == expected_positions(vs, tv[u].0, i, len));
    }
    assert forall|k: Seq<Seq<char>>|
        1 <= k.len() <= vs.len() / 2 && (#[trigger] expected_positions(vs, k, i2, len2)).len()
            > 0 implies exists|u: int| 0 <= u < tv.len() && (#[trigger] tv[u]).0 == k by {
        assert(expected_positions(vs, k, i, len).len() > 0);
    }
}

/// After the last row the table is the table of repeated substrings.
proof fn lemma_table_final(vs: Seq<Seq<char>>, tv: Seq<(Seq<Seq<char>>, Seq<int>)>)
    requires
        table_holds(vs, tv, vs.len() as int, 1),
    ensures
        is_substring_table(vs, tv),
{
    let n = vs.len() as int;
    assert forall|k: Seq<Seq<char>>| 1 <= k.len() implies #[trigger] occurrences(vs, k)
        == occurrences_below(vs, k, n) by {
        assert(!occurs_at(vs, k, n));
    }
    assert forall|t: int| 0 <= t < tv.len() implies {
        &&& 1 <= (#[trigger] tv[t]).0.len() <= vs.len() / 2
        &&& tv[t].1 == occurrences(vs, tv[t].0)
        &&& tv[t].1.len() > 0
    } by {
        assert(occurrences(vs, tv[t].0) == occurrences_below(vs, tv[t].0, n));
    }
    assert forall|i: int, len: int|
        #![trigger window(vs, i, len)]
        1 <= len <= vs.len() / 2 && 0 <= i && i + len <= vs.len() implies listed(
            tv,
            window(vs, i, len),
        ) by {
        let k = window(vs, i, len);
        assert(k.len() == len);
        assert(occurs_at(vs, k, i));
        lemma_occurrence_listed(vs, k, i, n);
        let p = occurrences_below(vs, k, n);
        assert(p.len() > 0);
        assert(expected_positions(vs, k, n, 1) == p);
        assert(1 <= k.len() <= vs.len() / 2);
        assert(exists|t: int| 0 <= t < tv.len() && (#[trigger] tv[t]).0 == k);
    }
    assert(forall|a: int, b: int|
        0 <= a < b < tv.len() ==> (#[trigger] tv[a]).0 != (#[trigger] tv[b]).0);
}

/// A copy of a vector of strings.
fn copy_strings(v: &Vec<String>) -> (r: Vec<String>)
    ensures
        strings_view(r@) == strings_view(v@),
{
    let mut r: Vec<String> = Vec::new();
    let mut i: usize = 0;
    while i < v.len()
        invariant
            i <= v.len(),
            strings_view(r@) == strings_view(v@.subrange(0, i as int)),
        decreases v.len() - i,
    {
        r.push(v[i].clone());
        assert(strings_view(v@.subrange(0, i + 1)) == strings_view(v@.subrange(0, i as int)).push(
            v@[i as int]@,
        ));
        i = i + 1;
    }
    assert(v@.subrange(0, v@.len() as int) == v@);
    r
}

/// A copy of a vector of positions.
fn copy_positions(v: &Vec<usize>) -> (r: Vec<usize>)
    ensures
        r@ == v@,
{
    let mut r: Vec<usize> = Vec::new();
    let mut i: usize = 0;
    while i < v.len()
        invariant
            i <= v.len(),
            r@ == v@.subrange(0, i as int),
        decreases v.len() - i,
    {
        r.push(v[i]);
        i = i + 1;
    }
    r
}

/// Whether two vectors hold the same strings.
pub fn strings_equal(a: &Vec<String>, b: &Vec<String>) -> (r: bool)
    ensures
        r == (strings_view(a@) == strings_view(b@)),
{
    if a.len() != b.len() {
        assert(strings_view(a@).len() != strings_view(b@).len());
        return false;
    }
    let mut i: usize = 0;
    while i < a.len()
        invariant
            a@.len() == b@.len(),
            i <= a@.len(),
            forall|j: int| 0 <= j < i ==> (#[trigger] a@[j])@ == b@[j]@,
        decreases a.len() - i,
    {
        if !crate::text::str_eq(a[i].as_str(), b[i].as_str()) {
            assert(strings_view(a@)[i as int] != strings_view(b@)[i as int]);
            return false;
        }
        i = i + 1;
    }
    assert(strings_view(a@) =~= strings_view(b@));
    true
}

/// The values of the graphemes.
pub fn grapheme_values(graphemes: &[Grapheme]) -> (r: Vec<String>)
    ensures
        strings_view(r@) == values(grapheme_models(graphemes@)),
{
    let mut r: Vec<String> = Vec::new();
    let mut i: usize = 0;
    while i < graphemes.len()
        invariant
            i <= graphemes@.len(),
            r@.len() == i,
            forall|j: int| 0 <= j < i ==> (#[trigger] r@[j])@ == graphemes@[j]@.value(),
        decreases graphemes.len() - i,
    {
        r.push(graphemes[i].value());
        i = i + 1;
    }
    assert(strings_view(r@) =~= values(grapheme_models(graphemes@)));
    r
}

/// The values `vals[i..i + len]`.
fn window_of(vals: &Vec<String>, i: usize, len: usize) -> (r: Vec<String>)
    requires
        i + len <= vals@.len(),
    ensures
        strings_view(r@) == window(strings_view(vals@), i as int, len as int),
{
    let mut r: Vec<String> = Vec::new();
    let mut k: usize = 0;
    let vn = vals.len();
    while k < len
        invariant
            k <= len,
            vn == vals@.len(),
            i + len <= vn,
            r@.len() == k,
            forall|j: int| 0 <= j < k ==> (#[trigger] r@[j])@ == vals@[i + j]@,
        decreases len - k,
    {
        r.push(vals[i + k].clone());
        k = k + 1;
    }
    assert(strings_view(r@) =~= window(strings_view(vals@), i as int, len as int));
    r
}

/// The table of repeated substrings of the graphemes: every run of between one and
/// half as many graphemes as there are, by its values, with the positions at which
/// it occurs.
pub fn collect_repeated_substrings(graphemes: &[Grapheme]) -> (table: Vec<(Vec<String>, Vec<usize>)>)
    ensures
        is_substring_table(values(grapheme_models(graphemes@)), table_view(table@)),
{
    let vals = grapheme_values(graphemes);
    let ghost vs = values(grapheme_models(graphemes@));
    let n = graphemes.len();
    let mut map: Vec<(Vec<String>, Vec<usize>)> = Vec::new();
    let mut i: usize = 0;
    while i < n
        invariant
            n == graphemes@.len(),
            vs == strings_view(vals@),
            vs.len() == n,
            i <= n,
            table_holds(vs, table_view(map@), i as int, 1),
        decreases n - i,
    {
        let mut j: usize = 1;
        while j <= n / 2
            invariant
                n == graphemes@.len(),
                vs == strings_view(vals@),
                vs.len() == n,
                i < n,
                1 <= j <= n / 2 + 1,
                table_holds(vs, table_view(map@), i as int, j as int),
            decreases n / 2 + 1 - j,
        {
            let ghost tv = table_view(map@);
            if n - i >= j {
                let prefix = window_of(&vals, i, j);
                let ghost key = strings_view(prefix@);
                let mut t: usize = 0;
                let mut found = false;
                while t < map.len() && !found
                    invariant
                        t <= map@.len(),
                        key == strings_view(prefix@),
                        tv == table_view(map@),
                        tv.len() == map@.len(),
                        found ==> t < map@.len() && tv[t as int].0 == key,
                        !found ==> forall|u: int| 0 <= u < t ==> (#[trigger] tv[u]).0 != key,
                    decreases map.len() - t, if found { 0int } else { 1int },
                {
                    assert(tv[t as int].0 == strings_view(map@[t as int].0@));
                    let entry = &map[t];
                    assert(*entry == map@[t as int]);
                    let same = strings_equal(&entry.0, &prefix);
                    assert(same == (strings_view(entry.0@) == strings_view(prefix@)));
                    assert(same == (tv[t as int].0 == key));
                    if same {
                        found = true;
                    } else {
                        t = t + 1;
                    }
                }
                proof {
                    assert(occurs_at(vs, key, i as int));
                    assert(occurrences_below(vs, key, i + 1) == occurrences_below(vs, key, i as int).push(i as int));
                }
                if found {
                    let key_copy = copy_strings(&map[t].0);
                    let mut idx = copy_positions(&map[t].1);
                    idx.push(i);
                    let ghost old_map = map@;
                    map.set(t, (key_copy, idx));
                    proof {
                        let nv = table_view(map@);
                        assert(nv[t as int].1 =~= tv[t as int].1.push(i as int));
                        assert forall|u: int| 0 <= u < nv.len() && u != t implies #[trigger] nv[u] == tv[u] by {
                            assert(map@[u] == old_map[u]);
                        }
                        lemma_table_update(vs, tv, nv, key, i as int, j as int, t as int);
                    }
                } else {
                    proof {
                        assert(key.len() == j);
                        lemma_table_insert(vs, tv, key, i as int, j as int);
                    }
                    let mut idx: Vec<usize> = Vec::new();
                    idx.push(i);
                    map.push((prefix, idx));
                    proof {
                        let nv = table_view(map@);
                        assert(positions(idx@) =~= seq![i as int]);
                        assert(nv =~= tv.push((key, seq![i as int])));
                    }
                }
            } else {
                proof {
                    assert forall|k: Seq<Seq<char>>|
                        1 <= k.len() <= vs.len() / 2 implies #[trigger] expected_positions(vs, k, i as int, j + 1)
                            == expected_positions(vs, k, i as int, j as int) by {
                    }
                    lemma_table_same(vs, tv, i as int, j as int, i as int, j + 1);
                }
            }
            j = j + 1;
        }
        proof {
            let tv = table_view(map@);
            assert forall|k: Seq<Seq<char>>|
                1 <= k.len() <= vs.len() / 2 implies #[trigger] expected_positions(vs, k, i + 1, 1)
                    == expected_positions(vs, k, i as int, j as int) by {
                if !occurs_at(vs, k, i as int) {
                    assert(occurrences_below(vs, k, i + 1) == occurrences_below(vs, k, i as int));
                }
            }
            lemma_table_same(vs, tv, i as int, j as int, i + 1, 1);
        }
        i = i + 1;
    }
    proof {
        lemma_table_final(vs, table_view(map@));
    }
    map
}

/// The positions of a key below a bound are increasing, below the bound, and
/// positions at which the key occurs.
pub proof fn lemma_occurrences_below(vals: Seq<Seq<char>>, key: Seq<Seq<char>>, m: int)
    ensures
        forall|a: int, b: int|
            0 <= a < b < occurrences_below(vals, key, m).len() ==> (#[trigger] occurrences_below(
                vals,
                key,
                m,
            )[a]) < (#[trigger] occurrences_below(vals, key, m)[b]),
        forall|a: int|
            0 <= a < occurrences_below(vals, key, m).len() ==> occurs_at(
                vals,
                key,
                #[trigger] occurrences_below(vals, key, m)[a],
            ) && occurrences_below(vals, key, m)[a] < m,
    decreases m,
{
    if m > 0 {
        lemma_occurrences_below(vals, key, m - 1);
        let prev = occurrences_below(vals, key, m - 1);
        let cur = occurrences_below(vals, key, m);
        if occurs_at(vals, key, m - 1) {
            assert(cur == prev.push(m - 1));
            assert forall|a: int, b: int| 0 <= a < b < cur.len() implies (#[trigger] cur[a]) < (
            #[trigger] cur[b]) by {
                if b < prev.len() {
                    assert(prev[a] < prev[b]);
                } else {
                    assert(prev[a] < m - 1);
                }
            }
            assert forall|a: int| 0 <= a < cur.len() implies occurs_at(vals, key, #[trigger] cur[a])
                && cur[a] < m by {
                if a < prev.len() {
                    assert(cur[a] == prev[a]);
                }
            }
        }
    }
}

/// The spans covered by the positions of a key of length `len`, adjacent spans
/// merged, from left to right.
pub open spec fn runs(idx: Seq<int>, len: int) -> Seq<(int, int)>
    decreases idx.len(),
{
    if idx.len() == 0 {
        Seq::empty()
    } else {
        let r = runs(idx.drop_last(), len);
        let x = idx.last();
        if r.len() > 0 && r.last().1 == x {
            r.drop_last().push((r.last().0, x + len))
        } else {
            r.push((x, x + len))
        }
    }
}

/// The spans that repeat the key more often than `min` times.
pub open spec fn kept_runs(rs: Seq<(int, int)>, len: int, min: u32) -> Seq<(int, int)>
    decreases rs.len(),
{
    if rs.len() == 0 {
        Seq::empty()
    } else {
        let r = rs.last();
        kept_runs(rs.drop_last(), len, min) + if ((r.1 - r.0) / len) as u32 > min {
            seq![r]
        } else {
            Seq::empty()
        }
    }
}

/// Consecutive positions lie at least `len` apart.
pub open spec fn spaced(idx: Seq<int>, len: int) -> bool {
    forall|t: int| 0 <= t < idx.len() - 1 ==> idx[t + 1] - #[trigger] idx[t] >= len
}

/// A span of graphemes with the values that repeat in it.
pub type RangeOf = (int, int, Seq<Seq<char>>);

/// The repeated spans of the key that first occurs at position `i` with length `len`.
pub open spec fn entry_ranges(vals: Seq<Seq<char>>, i: int, len: int, min: u32) -> Seq<RangeOf> {
    let key = window(vals, i, len);
    let occ = occurrences(vals, key);
    if 0 <= i && i + len <= vals.len() && occ.len() > 0 && occ[0] == i && spaced(occ, len) {
        kept_runs(runs(occ, len), len, min).map_values(|r: (int, int)| (r.0, r.1, key))
    } else {
        Seq::empty()
    }
}

/// The repeated spans of the keys of length `len` that first occur below `m`, by
/// first position.
pub open spec fn ranges_of_length(vals: Seq<Seq<char>>, len: int, m: int, min: u32) -> Seq<RangeOf>
    decreases m,
{
    if m <= 0 {
        Seq::empty()
    } else {
        ranges_of_length(vals, len, m - 1, min) + entry_ranges(vals, m - 1, len, min)
    }
}

/// The repeated spans of the keys longer than `len`, longest first.
pub open spec fn ranges_above(vals: Seq<Seq<char>>, len: int, min: u32) -> Seq<RangeOf>
    decreases vals.len() / 2 - len,
{
    if len >= vals.len() / 2 {
        Seq::empty()
    } else {
        ranges_above(vals, len + 1, min) + ranges_of_length(
            vals,
            len + 1,
            vals.len() - len,
            min,
        )
    }
}

/// The view of a vector of spans.
pub open spec fn ranges_view(v: Seq<(usize, usize, Vec<String>)>) -> Seq<RangeOf> {
    v.map_values(|r: (usize, usize, Vec<String>)| (r.0 as int, r.1 as int, strings_view(r.2@)))
}

/// Appends copies of spans.
fn append_ranges(out: &mut Vec<(usize, usize, Vec<String>)>, spans: &Vec<(usize, usize, Vec<String>)>)
    ensures
        ranges_view(final(out)@) == ranges_view(old(out)@) + ranges_view(spans@),
{
    let mut k: usize = 0;
    while k < spans.len()
        invariant
            k <= spans@.len(),
            ranges_view(out@) == ranges_view(old(out)@) + ranges_view(spans@.take(k as int)),
        decreases spans.len() - k,
    {
        let sp = (spans[k].0, spans[k].1, copy_strings(&spans[k].2));
        let ghost prev = out@;
        out.push(sp);
        proof {
            assert(ranges_view(spans@.take(k + 1)) =~= ranges_view(spans@.take(k as int)).push(
                (spans@[k as int].0 as int, spans@[k as int].1 as int, strings_view(spans@[k as int].2@)),
            ));
            assert(ranges_view(out@) =~= ranges_view(prev).push(
                (spans@[k as int].0 as int, spans@[k as int].1 as int, strings_view(spans@[k as int].2@)),
            ));
        }
        k = k + 1;
    }
    proof {
        assert(spans@.take(k as int) =~= spans@);
    }
}

/// The repeated spans of the key of length `len` at position `i`, where it first
/// occurs there.
fn ranges_at(
    repeated_substrings: &Vec<(Vec<String>, Vec<usize>)>,
    i: usize,
    len: usize,
    n: usize,
    min: u32,
    Ghost(vals): Ghost<Seq<Seq<char>>>,
) -> (r: Vec<(usize, usize, Vec<String>)>)
    requires
        vals.len() == n,
        is_substring_table(vals, table_view(repeated_substrings@)),
        1 <= len <= n / 2,
        i + len <= n,
    ensures
        ranges_view(r@) == entry_ranges(vals, i as int, len as int, min),
{
    let ghost tv = table_view(repeated_substrings@);
    let ghost key = window(vals, i as int, len as int);
    let mut t: usize = 0;
    let mut found = false;
    proof {
        assert forall|u: int| 0 <= u < tv.len() implies (#[trigger] tv[u]).1.len() > 0 by {
        }
    }
    while t < repeated_substrings.len() && !found
        invariant
            t <= repeated_substrings@.len(),
            tv == table_view(repeated_substrings@),
            tv.len() == repeated_substrings@.len(),
            found ==> t < tv.len() && tv[t as int].0.len() == len && tv[t as int].1[0] == i,
            !found ==> forall|u: int|
                0 <= u < t ==> !((#[trigger] tv[u]).0.len() == len && tv[u].1[0] == i),
            forall|u: int| 0 <= u < tv.len() ==> (#[trigger] tv[u]).1.len() > 0,
        decreases repeated_substrings.len() - t, if found { 0int } else { 1int },
    {
        let entry = &repeated_substrings[t];
        assert(tv[t as int].0 == strings_view(entry.0@));
        assert(tv[t as int].1 == positions(entry.1@));
        if entry.0.len() == len && entry.1[0] == i {
            found = true;
        } else {
            t = t + 1;
        }
    }
    proof {
        assert(occurs_at(vals, key, i as int));
        lemma_occurrence_listed(vals, key, i as int, (vals.len() + 1) as int);
        lemma_occurrences_below(vals, key, (vals.len() + 1) as int);
        assert(listed(tv, key));
    }
    if found {
        let entry = &repeated_substrings[t];
        let ghost occ = tv[t as int].1;
        proof {
            lemma_occurrences_below(vals, tv[t as int].0, (vals.len() + 1) as int);
            assert(occurs_at(vals, tv[t as int].0, occ[0]));
            assert(tv[t as int].0 =~= key);
            assert(occ == occurrences(vals, key));
            assert(strings_view(entry.0@) == key);
            assert(positions(entry.1@) == occ);
        }
        key_ranges(&entry.0, &entry.1, len, min, n, Ghost(vals))
    } else {
        proof {
            let occ = occurrences(vals, key);
            if occ.len() > 0 && occ[0] == i {
                let u = choose|u: int| 0 <= u < tv.len() && (#[trigger] tv[u]).0 == key;
                assert(tv[u].1 == occ);
                assert(false);
            }
            assert(entry_ranges(vals, i as int, len as int, min) =~= Seq::<RangeOf>::empty());
        }
        Vec::new()
    }
}

/// The spans of repeated keys: keys by decreasing length and, among keys of one
/// length, by first position; of a key whose positions lie at least its length
/// apart, the spans of adjacent positions that repeat it more often than the
/// least number of repetitions.
pub(crate) fn create_ranges_of_repetitions(
    repeated_substrings: &Vec<(Vec<String>, Vec<usize>)>,
    n: usize,
    config: &RegExpConfig,
    Ghost(vals): Ghost<Seq<Seq<char>>>,
) -> (r: Vec<(usize, usize, Vec<String>)>)
    requires
        vals.len() == n,
        is_substring_table(vals, table_view(repeated_substrings@)),
    ensures
        ranges_view(r@) == ranges_above(vals, 0, config.minimum_repetitions),
{
    let min = config.minimum_repetitions;
    let mut out: Vec<(usize, usize, Vec<String>)> = Vec::new();
    let mut len: usize = n / 2;
    while len > 0
        invariant
            vals.len() == n,
            is_substring_table(vals, table_view(repeated_substrings@)),
            len <= n / 2,
            ranges_view(out@) == ranges_above(vals, len as int, min),
        decreases len,
    {
        let ghost before = ranges_view(out@);
        let mut i: usize = 0;
        while i <= n - len
            invariant
                vals.len() == n,
                is_substring_table(vals, table_view(repeated_substrings@)),
                1 <= len <= n / 2,
                i <= n - len + 1,
                ranges_view(out@) == before + ranges_of_length(vals, len as int, i as int, min),
            decreases n + 1 - i,
        {
            let spans = ranges_at(repeated_substrings, i, len, n, min, Ghost(vals));
            append_ranges(&mut out, &spans);
            i = i + 1;
            proof {
                assert(ranges_view(out@) =~= before + ranges_of_length(vals, len as int, i as int, min));
            }
        }
        proof {
            assert(ranges_view(out@) =~= ranges_above(vals, len - 1, min));
        }
        len = len - 1;
    }
    out
}

/// `a` comes before `b`: it ends later, or ends where `b` ends and starts earlier.
pub open spec fn comes_before(a: RangeOf, b: RangeOf) -> bool {
    a.1 > b.1 || (a.1 == b.1 && a.0 < b.0)
}

/// Inserts `m` before the first span that it comes before.
pub open spec fn insert_range(s: Seq<RangeOf>, m: RangeOf) -> Seq<RangeOf>
    decreases s.len(),
{
    if s.len() == 0 {
        seq![m]
    } else if comes_before(m, s[0]) {
        seq![m] + s
    } else {
        seq![s[0]] + insert_range(s.drop_first(), m)
    }
}

/// The spans sorted by decreasing end and then increasing start; spans with equal
/// ends and starts keep their order.
pub open spec fn sort_ranges(s: Seq<RangeOf>) -> Seq<RangeOf>
    decreases s.len(),
{
    if s.len() == 0 {
        Seq::empty()
    } else {
        insert_range(sort_ranges(s.drop_last()), s.last())
    }
}

/// `second` starts or ends inside `first`, without ending where `first` starts.
pub open spec fn overlaps(first: RangeOf, second: RangeOf) -> bool {
    ((first.0 <= second.0 < first.1) || (first.0 <= second.1 < first.1)) && second.1 != first.0
}

/// The spans, each dropped where it overlaps the last one kept before it.
pub open spec fn coalesce_ranges(s: Seq<RangeOf>) -> Seq<RangeOf>
    decreases s.len(),
{
    if s.len() == 0 {
        Seq::empty()
    } else {
        let acc = coalesce_ranges(s.drop_last());
        if acc.len() > 0 && overlaps(acc.last(), s.last()) {
            acc
        } else {
            acc.push(s.last())
        }
    }
}

/// Inserting at the first position whose span the new one comes before.
#[verifier::rlimit(30)]
proof fn lemma_insert_range(s: Seq<RangeOf>, m: RangeOf, p: int)
    requires
        0 <= p <= s.len(),
        forall|j: int| 0 <= j < p ==> !comes_before(m, #[trigger] s[j]),
        p < s.len() ==> comes_before(m, s[p]),
    ensures
        insert_range(s, m) == s.insert(p, m),
    decreases s.len(),
{
    if s.len() == 0 {
        assert(s.insert(p, m) =~= seq![m]);
    } else if p == 0 {
        assert(s.insert(p, m) =~= seq![m] + s);
    } else {
        lemma_insert_range(s.drop_first(), m, p - 1);
        assert(s.insert(p, m) =~= seq![s[0]] + s.drop_first().insert(p - 1, m));
    }
}

/// The spans sorted by decreasing end and increasing start, overlapping ones dropped.
pub(crate) fn coalesce_repetitions(ranges_of_repetitions: Vec<(usize, usize, Vec<String>)>) -> (r: Vec<
    (usize, usize, Vec<String>),
>)
    ensures
        ranges_view(r@) == coalesce_ranges(sort_ranges(ranges_view(ranges_of_repetitions@))),
{
    let ghost orig = ranges_view(ranges_of_repetitions@);
    let mut rest = ranges_of_repetitions;
    let mut sorted: Vec<(usize, usize, Vec<String>)> = Vec::new();
    let ghost mut k: int = 0;
    while rest.len() > 0
        invariant
            0 <= k <= orig.len(),
            ranges_view(rest@) == orig.skip(k),
            ranges_view(sorted@) == sort_ranges(orig.take(k)),
        decreases rest.len(),
    {
        proof {
            assert(ranges_view(rest@).len() == rest@.len());
            assert(orig.skip(k)[0] == orig[k]);
            assert(ranges_view(rest@)[0] == orig[k]);
        }
        let ghost old_rest = rest@;
        let m = rest.remove(0);
        proof {
            assert(rest@ =~= old_rest.drop_first());
            assert forall|j: int| 0 <= j < rest@.len() implies #[trigger] ranges_view(rest@)[j] == orig.skip(k + 1)[j] by {
                assert(ranges_view(rest@)[j] == ranges_view(old_rest)[j + 1]);
                assert(orig.skip(k)[j + 1] == orig.skip(k + 1)[j]);
            }
            assert(ranges_view(rest@) =~= orig.skip(k + 1));
        }
        let ghost mv = (m.0 as int, m.1 as int, strings_view(m.2@));
        let mut p: usize = 0;
        while p < sorted.len() && !(m.1 > sorted[p].1 || (m.1 == sorted[p].1 && m.0 < sorted[p].0))
            invariant
                p <= sorted@.len(),
                mv == (m.0 as int, m.1 as int, strings_view(m.2@)),
                forall|j: int| 0 <= j < p ==> !comes_before(mv, #[trigger] ranges_view(sorted@)[j]),
            decreases sorted.len() - p,
        {
            p = p + 1;
        }
        proof {
            let s = ranges_view(sorted@);
            lemma_insert_range(s, mv, p as int);
            assert(orig.take(k + 1).drop_last() =~= orig.take(k));
            assert(orig.take(k + 1).last() == mv);
        }
        let ghost before = sorted@;
        sorted.insert(p, m);
        proof {
            assert(ranges_view(sorted@) =~= ranges_view(before).insert(p as int, mv));
            k = k + 1;
        }
    }
    proof {
        assert(orig.take(k) =~= orig);
    }
    let ghost sv = ranges_view(sorted@);
    let mut out: Vec<(usize, usize, Vec<String>)> = Vec::new();
    let mut q: usize = 0;
    while q < sorted.len()
        invariant
            q <= sorted@.len(),
            sv == ranges_view(sorted@),
            ranges_view(out@) == coalesce_ranges(sv.take(q as int)),
        decreases sorted.len() - q,
    {
        proof {
            assert(sv.take(q + 1).drop_last() =~= sv.take(q as int));
            assert(sv.take(q + 1).last() == sv[q as int]);
        }
        let keep = if out.len() > 0 {
            let last = out.len() - 1;
            let f0 = out[last].0;
            let f1 = out[last].1;
            let s0 = sorted[q].0;
            let s1 = sorted[q].1;
            !(((f0 <= s0 && s0 < f1) || (f0 <= s1 && s1 < f1)) && s1 != f0)
        } else {
            true
        };
        if keep {
            let sp = (sorted[q].0, sorted[q].1, copy_strings(&sorted[q].2));
            let ghost prev = out@;
            out.push(sp);
            proof {
                assert(ranges_view(out@) =~= ranges_view(prev).push(sv[q as int]));
            }
        }
        q = q + 1;
    }
    proof {
        assert(sv.take(q as int) =~= sv);
    }
    out
}

/// The most strings that one of the graphemes is made of.
pub open spec fn maxc(gs: Seq<GraphemeModel>) -> nat
    decreases gs.len(),
{
    if gs.len() == 0 {
        0
    } else {
        let m = maxc(gs.drop_last());
        if gs.last().chars.len() > m {
            gs.last().chars.len()
        } else {
            m
        }
    }
}

/// A measure of a sequence of graphemes that the conversion of repetitions
/// decreases from a call to the calls it makes.
pub open spec fn size(gs: Seq<GraphemeModel>) -> nat {
    if gs.len() > maxc(gs) + 1 {
        gs.len()
    } else {
        maxc(gs) + 1
    }
}

/// `hs` is smaller than `gs` by `size` and then by length.
pub open spec fn smaller(hs: Seq<GraphemeModel>, gs: Seq<GraphemeModel>) -> bool {
    size(hs) < size(gs) || (size(hs) == size(gs) && hs.len() < gs.len())
}

/// The grapheme that stands for `count` repetitions of `substr`.
pub open spec fn repeated_grapheme(substr: Seq<Seq<char>>, count: u32, config: RegExpConfig) -> GraphemeModel {
    GraphemeModel { chars: substr, repetitions: Seq::empty(), min: count, max: count, config }
}

/// The graphemes with the spans replaced one after the other by repeated graphemes;
/// a span that reaches past the end stops the replacing, and one whose values are
/// fewer than the least substring length is left out.
pub open spec fn splice_ranges(v: Seq<GraphemeModel>, rs: Seq<RangeOf>, config: RegExpConfig) -> Seq<
    GraphemeModel,
>
    decreases rs.len(),
{
    if rs.len() == 0 {
        v
    } else {
        let r = rs[0];
        if r.1 > v.len() {
            v
        } else if r.2.len() < config.minimum_substring_length {
            splice_ranges(v, rs.drop_first(), config)
        } else {
            let count = ((r.1 - r.0) / (r.2.len() as int)) as u32;
            splice_ranges(
                v.subrange(0, r.0) + seq![repeated_grapheme(r.2, count, config)] + v.subrange(
                    r.1,
                    v.len() as int,
                ),
                rs.drop_first(),
                config,
            )
        }
    }
}

/// The spans of repeated values that replace graphemes: sorted by decreasing end
/// and increasing start, overlapping ones dropped.
pub open spec fn coalesced_ranges(gs: Seq<GraphemeModel>, config: RegExpConfig) -> Seq<RangeOf> {
    coalesce_ranges(sort_ranges(ranges_above(values(gs), 0, config.minimum_repetitions)))
}

/// The nesting height of a grapheme's repeated parts from position `k` on: one more
/// than the greatest height among them, and 1 where there are none.
pub open spec fn height_from(g: GraphemeModel, k: int) -> nat
    decreases g, g.repetitions.len() - k,
{
    if k < 0 || k >= g.repetitions.len() {
        1
    } else {
        let h = 1 + height_from(g.repetitions[k], 0);
        let rest = height_from(g, k + 1);
        if h > rest {
            h
        } else {
            rest
        }
    }
}

/// The nesting height of a grapheme: 1 without repeated parts, otherwise one more
/// than the greatest height of its repeated parts.
pub open spec fn height(g: GraphemeModel) -> nat {
    height_from(g, 0)
}

/// The greatest height among graphemes; 0 where there are none.
pub open spec fn heights(gs: Seq<GraphemeModel>) -> nat
    decreases gs.len(),
{
    if gs.len() == 0 {
        0
    } else {
        let h = heights(gs.drop_last());
        if height(gs.last()) > h {
            height(gs.last())
        } else {
            h
        }
    }
}

/// `hs` comes before `gs` by height, then by `size`, then by length.
pub open spec fn measure_less(hs: Seq<GraphemeModel>, gs: Seq<GraphemeModel>) -> bool {
    ||| heights(hs) < heights(gs)
    ||| heights(hs) == heights(gs) && smaller(hs, gs)
}

/// The conversion of repetitions into a list that already holds `prior`: where
/// something repeats in `graphemes`, the graphemes are appended to `prior`, the
/// repeated spans (whose positions count from the start of the whole list) are
/// replaced by repeated graphemes, and each grapheme of the list gets the
/// conversion of its own strings appended to its repeated parts; `prior` is left as
/// it is where nothing repeats.
pub open spec fn repetitions_into(
    prior: Seq<GraphemeModel>,
    gs: Seq<GraphemeModel>,
    config: RegExpConfig,
) -> Seq<GraphemeModel>
    decreases heights(prior + gs), size(prior + gs), (prior + gs).len(),
{
    let cs = coalesced_ranges(gs, config);
    if cs.len() == 0 {
        prior
    } else {
        let v = splice_ranges(prior + gs, cs, config);
        Seq::new(
            v.len(),
            |i: int|
                if measure_less(v[i].repetitions + singles(v[i].chars, config), prior + gs) {
                    GraphemeModel {
                        repetitions: repetitions_into(
                            v[i].repetitions,
                            singles(v[i].chars, config),
                            config,
                        ),
                        ..v[i]
                    }
                } else {
                    v[i]
                },
        )
    }
}

/// The graphemes with repeated spans replaced by repeated graphemes, each of which
/// gets, appended to its repeated parts, the conversion of its own strings; empty
/// where nothing repeats.
pub open spec fn repetitions_of(gs: Seq<GraphemeModel>, config: RegExpConfig) -> Seq<GraphemeModel> {
    repetitions_into(Seq::empty(), gs, config)
}

/// A span within `n` graphemes whose values are between one and half as many.
pub open spec fn range_ok(r: RangeOf, n: int) -> bool {
    0 <= r.0 < r.1 <= n && 1 <= r.2.len() <= n / 2
}

pub open spec fn ranges_ok(rs: Seq<RangeOf>, n: int) -> bool {
    forall|i: int| 0 <= i < rs.len() ==> range_ok(#[trigger] rs[i], n)
}

/// The spans of positions of a key lie within the graphemes.
proof fn lemma_runs_ok(idx: Seq<int>, len: int, n: int)
    requires
        len >= 1,
        forall|a: int| 0 <= a < idx.len() ==> 0 <= #[trigger] idx[a] && idx[a] + len <= n,
    ensures
        forall|a: int|
            0 <= a < runs(idx, len).len() ==> 0 <= (#[trigger] runs(idx, len)[a]).0 < runs(
                idx,
                len,
            )[a].1 <= n,
    decreases idx.len(),
{
    if idx.len() > 0 {
        lemma_runs_ok(idx.drop_last(), len, n);
        let r = runs(idx.drop_last(), len);
        assert(idx.last() == idx[idx.len() - 1]);
        if r.len() > 0 && r.last().1 == idx.last() {
            assert(r.last() == r[r.len() - 1]);
        }
    }
}

proof fn lemma_kept_runs_ok(rs: Seq<(int, int)>, len: int, min: u32, n: int)
    requires
        forall|a: int| 0 <= a < rs.len() ==> 0 <= (#[trigger] rs[a]).0 < rs[a].1 <= n,
    ensures
        forall|a: int|
            0 <= a < kept_runs(rs, len, min).len() ==> 0 <= (#[trigger] kept_runs(rs, len, min)[a]).0
                < kept_runs(rs, len, min)[a].1 <= n,
    decreases rs.len(),
{
    if rs.len() > 0 {
        lemma_kept_runs_ok(rs.drop_last(), len, min, n);
        assert(rs.last() == rs[rs.len() - 1]);
        let a = kept_runs(rs.drop_last(), len, min);
        let r = rs.last();
        let e = if ((r.1 - r.0) / len) as u32 > min {
            seq![r]
        } else {
            Seq::<(int, int)>::empty()
        };
        assert(kept_runs(rs, len, min) == a + e);
        assert forall|j: int| 0 <= j < (a + e).len() implies 0 <= (#[trigger] (a + e)[j]).0 < (a
            + e)[j].1 <= n by {
            if j < a.len() {
                assert((a + e)[j] == a[j]);
            } else {
                assert((a + e)[j] == e[j - a.len()]);
            }
        }
    }
}

proof fn lemma_ranges_of_length_ok(vals: Seq<Seq<char>>, len: int, m: int, min: u32)
    requires
        1 <= len <= vals.len() / 2,
    ensures
        ranges_ok(ranges_of_length(vals, len, m, min), vals.len() as int),
    decreases m,
{
    if m > 0 {
        lemma_ranges_of_length_ok(vals, len, m - 1, min);
        let i = m - 1;
        let key = window(vals, i, len);
        let occ = occurrences(vals, key);
        let e = entry_ranges(vals, i, len, min);
        if 0 <= i && i + len <= vals.len() && occ.len() > 0 && occ[0] == i && spaced(occ, len) {
            lemma_occurrences_below(vals, key, (vals.len() + 1) as int);
            assert forall|a: int| 0 <= a < occ.len() implies 0 <= #[trigger] occ[a] && occ[a] + len
                <= vals.len() by {
                assert(occurs_at(vals, key, occ[a]));
            }
            lemma_runs_ok(occ, len, vals.len() as int);
            lemma_kept_runs_ok(runs(occ, len), len, min, vals.len() as int);
            assert(key.len() == len);
        }
        assert(ranges_ok(e, vals.len() as int));
        let a = ranges_of_length(vals, len, m - 1, min);
        assert forall|j: int| 0 <= j < (a + e).len() implies range_ok(#[trigger] (a + e)[j], vals.len() as int) by {
            if j < a.len() {
                assert((a + e)[j] == a[j]);
            } else {
                assert((a + e)[j] == e[j - a.len()]);
            }
        }
    }
}

proof fn lemma_ranges_above_ok(vals: Seq<Seq<char>>, len: int, min: u32)
    requires
        len >= 0,
    ensures
        ranges_ok(ranges_above(vals, len, min), vals.len() as int),
        vals.len() < 2 ==> ranges_above(vals, len, min).len() == 0,
    decreases vals.len() / 2 - len,
{
    if len < vals.len() / 2 {
        lemma_ranges_above_ok(vals, len + 1, min);
        lemma_ranges_of_length_ok(vals, len + 1, vals.len() - len, min);
        let a = ranges_above(vals, len + 1, min);
        let e = ranges_of_length(vals, len + 1, vals.len() - len, min);
        assert forall|j: int| 0 <= j < (a + e).len() implies range_ok(#[trigger] (a + e)[j], vals.len() as int) by {
            if j < a.len() {
                assert((a + e)[j] == a[j]);
            } else {
                assert((a + e)[j] == e[j - a.len()]);
            }
        }
    }
}

proof fn lemma_insert_range_ok(s: Seq<RangeOf>, m: RangeOf, n: int)
    requires
        ranges_ok(s, n),
        range_ok(m, n),
    ensures
        ranges_ok(insert_range(s, m), n),
        insert_range(s, m).len() == s.len() + 1,
    decreases s.len(),
{
    if s.len() > 0 && !comes_before(m, s[0]) {
        lemma_insert_range_ok(s.drop_first(), m, n);
        let t = insert_range(s.drop_first(), m);
        assert forall|j: int| 0 <= j < (seq![s[0]] + t).len() implies range_ok(#[trigger] (seq![s[0]] + t)[j], n) by {
            if j > 0 {
                assert((seq![s[0]] + t)[j] == t[j - 1]);
            }
        }
    } else if s.len() > 0 {
        assert forall|j: int| 0 <= j < (seq![m] + s).len() implies range_ok(#[trigger] (seq![m] + s)[j], n) by {
            if j > 0 {
                assert((seq![m] + s)[j] == s[j - 1]);
            }
        }
    }
}

proof fn lemma_sort_ranges_ok(s: Seq<RangeOf>, n: int)
    requires
        ranges_ok(s, n),
    ensures
        ranges_ok(sort_ranges(s), n),
        sort_ranges(s).len() == s.len(),
    decreases s.len(),
{
    if s.len() > 0 {
        assert(ranges_ok(s.drop_last(), n));
        lemma_sort_ranges_ok(s.drop_last(), n);
        assert(range_ok(s[s.len() - 1], n));
        lemma_insert_range_ok(sort_ranges(s.drop_last()), s.last(), n);
    }
}

proof fn lemma_coalesce_ranges_ok(s: Seq<RangeOf>, n: int)
    requires
        ranges_ok(s, n),
    ensures
        ranges_ok(coalesce_ranges(s), n),
        coalesce_ranges(s).len() <= s.len(),
    decreases s.len(),
{
    if s.len() > 0 {
        assert(ranges_ok(s.drop_last(), n));
        lemma_coalesce_ranges_ok(s.drop_last(), n);
        assert(range_ok(s[s.len() - 1], n));
    }
}

/// The spans that replace graphemes lie within them, and there are some only where
/// there are at least two graphemes.
proof fn lemma_coalesced_ranges_ok(gs: Seq<GraphemeModel>, config: RegExpConfig)
    ensures
        ranges_ok(coalesced_ranges(gs, config), gs.len() as int),
        coalesced_ranges(gs, config).len() > 0 ==> gs.len() >= 2,
{
    let vals = values(gs);
    lemma_ranges_above_ok(vals, 0, config.minimum_repetitions);
    let ra = ranges_above(vals, 0, config.minimum_repetitions);
    lemma_sort_ranges_ok(ra, gs.len() as int);
    lemma_coalesce_ranges_ok(sort_ranges(ra), gs.len() as int);
}

/// A grapheme of the replaced sequence: one of the graphemes before replacing, or a repeated
/// grapheme of between one and half as many strings as there are graphemes.
pub open spec fn from_splice(e: GraphemeModel, gs: Seq<GraphemeModel>) -> bool {
    ||| exists|j: int| 0 <= j < gs.len() && #[trigger] gs[j] == e
    ||| 1 <= e.chars.len() <= gs.len() / 2 && e.repetitions.len() == 0
}

proof fn lemma_splice_ranges(v: Seq<GraphemeModel>, rs: Seq<RangeOf>, config: RegExpConfig, gs: Seq<
    GraphemeModel,
>)
    requires
        ranges_ok(rs, gs.len() as int),
        forall|i: int| 0 <= i < v.len() ==> from_splice(#[trigger] v[i], gs),
    ensures
        forall|i: int|
            0 <= i < splice_ranges(v, rs, config).len() ==> from_splice(
                #[trigger] splice_ranges(v, rs, config)[i],
                gs,
            ),
    decreases rs.len(),
{
    if rs.len() > 0 {
        let r = rs[0];
        assert(range_ok(r, gs.len() as int));
        assert(ranges_ok(rs.drop_first(), gs.len() as int)) by {
            assert forall|j: int| 0 <= j < rs.drop_first().len() implies range_ok(#[trigger] rs.drop_first()[j], gs.len() as int) by {
                assert(rs.drop_first()[j] == rs[j + 1]);
            }
        }
        if r.1 > v.len() {
            assert(splice_ranges(v, rs, config) == v);
        } else if r.2.len() < config.minimum_substring_length {
            lemma_splice_ranges(v, rs.drop_first(), config, gs);
            assert(splice_ranges(v, rs, config) == splice_ranges(v, rs.drop_first(), config));
        } else {
            let count = ((r.1 - r.0) / (r.2.len() as int)) as u32;
            let g = repeated_grapheme(r.2, count, config);
            let w = v.subrange(0, r.0) + seq![g] + v.subrange(r.1, v.len() as int);
            assert forall|i: int| 0 <= i < w.len() implies from_splice(#[trigger] w[i], gs) by {
                if i < r.0 {
                    assert(w[i] == v[i]);
                } else if i == r.0 {
                    assert(w[i] == g);
                } else {
                    assert(w[i] == v[i - r.0 - 1 + r.1]);
                }
            }
            lemma_splice_ranges(w, rs.drop_first(), config, gs);
            assert(splice_ranges(v, rs, config) == splice_ranges(w, rs.drop_first(), config));
        }
    }
}

/// A grapheme's strings are at most as many as the most that any grapheme has.
proof fn lemma_maxc(gs: Seq<GraphemeModel>, j: int)
    requires
        0 <= j < gs.len(),
    ensures
        gs[j].chars.len() <= maxc(gs),
    decreases gs.len(),
{
    if j < gs.len() - 1 {
        lemma_maxc(gs.drop_last(), j);
        assert(gs.drop_last()[j] == gs[j]);
    }
}

/// The graphemes of single strings are each made of one string.
proof fn lemma_maxc_singles(ts: Seq<Seq<char>>, config: RegExpConfig)
    ensures
        maxc(singles(ts, config)) == if ts.len() > 0 {
            1nat
        } else {
            0nat
        },
    decreases ts.len(),
{
    if ts.len() > 0 {
        lemma_maxc_singles(ts.drop_last(), config);
        assert(singles(ts, config).drop_last() =~= singles(ts.drop_last(), config));
    }
}

/// The conversion of a grapheme's strings is smaller than the conversion it is part of.
proof fn lemma_from_splice_smaller(e: GraphemeModel, gs: Seq<GraphemeModel>, config: RegExpConfig)
    requires
        from_splice(e, gs),
        gs.len() >= 2,
    ensures
        smaller(singles(e.chars, config), gs),
{
    lemma_maxc_singles(e.chars, config);
    if exists|j: int| 0 <= j < gs.len() && #[trigger] gs[j] == e {
        let j = choose|j: int| 0 <= j < gs.len() && #[trigger] gs[j] == e;
        lemma_maxc(gs, j);
    }
}

/// A repeated part of a grapheme is lower than the grapheme.
proof fn lemma_height_child(g: GraphemeModel, k: int)
    requires
        0 <= k < g.repetitions.len(),
    ensures
        height(g.repetitions[k]) < height(g),
{
    lemma_height_from_child(g, 0, k);
}

/// The height from any position up to `k` is above that of the part at `k`.
proof fn lemma_height_from_child(g: GraphemeModel, j: int, k: int)
    requires
        0 <= j <= k < g.repetitions.len(),
    ensures
        height_from(g, j) >= 1 + height(g.repetitions[k]),
    decreases k - j,
{
    if j < k {
        lemma_height_from_child(g, j + 1, k);
    }
}

/// A grapheme is of height 1 at least, and of height 1 only without repeated parts.
proof fn lemma_height_one(g: GraphemeModel)
    ensures
        height(g) >= 1,
        height(g) == 1 ==> g.repetitions.len() == 0,
{
    if g.repetitions.len() > 0 {
        lemma_height_from_child(g, 0, 0);
    }
}

/// The greatest height is at least that of each grapheme.
proof fn lemma_heights_ge(gs: Seq<GraphemeModel>, i: int)
    requires
        0 <= i < gs.len(),
    ensures
        heights(gs) >= height(gs[i]),
    decreases gs.len(),
{
    if i < gs.len() - 1 {
        lemma_heights_ge(gs.drop_last(), i);
        assert(gs.drop_last()[i] == gs[i]);
    }
}

/// Graphemes that are each at most `h` high are at most `h` high together.
proof fn lemma_heights_le(gs: Seq<GraphemeModel>, h: nat)
    requires
        forall|i: int| 0 <= i < gs.len() ==> height(#[trigger] gs[i]) <= h,
    ensures
        heights(gs) <= h,
    decreases gs.len(),
{
    if gs.len() > 0 {
        assert forall|i: int| 0 <= i < gs.drop_last().len() implies height(
            #[trigger] gs.drop_last()[i],
        ) <= h by {
            assert(gs.drop_last()[i] == gs[i]);
        }
        lemma_heights_le(gs.drop_last(), h);
        assert(height(gs[gs.len() - 1]) <= h);
    }
}

/// Spans that lie within `n` graphemes lie within more.
proof fn lemma_ranges_ok_grow(rs: Seq<RangeOf>, n: int, m: int)
    requires
        ranges_ok(rs, n),
        n <= m,
    ensures
        ranges_ok(rs, m),
{
    assert forall|j: int| 0 <= j < rs.len() implies range_ok(#[trigger] rs[j], m) by {
        assert(range_ok(rs[j], n));
        assert(n / 2 <= m / 2) by (nonlinear_arith)
            requires
                n <= m,
        ;
    }
}

/// The conversion of a grapheme of the replaced list, into its own repeated parts,
/// comes before the conversion of the list by the measure of `repetitions_into`.
proof fn lemma_measure_less(e: GraphemeModel, c: Seq<GraphemeModel>, config: RegExpConfig)
    requires
        from_splice(e, c),
        c.len() >= 2,
    ensures
        measure_less(e.repetitions + singles(e.chars, config), c),
{
    let c2 = e.repetitions + singles(e.chars, config);
    let hc = heights(c);
    lemma_heights_ge(c, 0);
    lemma_height_one(c[0]);
    lemma_height_one(e);
    if exists|j: int| 0 <= j < c.len() && #[trigger] c[j] == e {
        let j = choose|j: int| 0 <= j < c.len() && #[trigger] c[j] == e;
        lemma_heights_ge(c, j);
    } else {
        assert(e.repetitions.len() == 0);
        assert(height_from(e, 0) == 1);
    }
    assert(height(e) <= hc);
    assert forall|i: int| 0 <= i < singles(e.chars, config).len() implies height(
        #[trigger] singles(e.chars, config)[i],
    ) == 1 by {
        let s = singles(e.chars, config)[i];
        assert(s.repetitions.len() == 0);
        assert(height_from(s, 0) == 1);
    }
    if hc >= 2 {
        assert forall|i: int| 0 <= i < c2.len() implies height(#[trigger] c2[i]) <= (hc - 1) as nat by {
            if i < e.repetitions.len() {
                assert(c2[i] == e.repetitions[i]);
                lemma_height_child(e, i);
            } else {
                assert(c2[i] == singles(e.chars, config)[i - e.repetitions.len()]);
            }
        }
        lemma_heights_le(c2, (hc - 1) as nat);
    } else {
        assert(e.repetitions.len() == 0);
        assert(c2 =~= singles(e.chars, config));
        lemma_heights_le(c2, 1);
        lemma_from_splice_smaller(e, c, config);
    }
}

/// Replaces the graphemes `v[start..end]` by `g`.
fn splice_one(v: &mut Vec<Grapheme>, start: usize, end: usize, g: Grapheme)
    requires
        start <= end <= old(v)@.len(),
    ensures
        grapheme_models(final(v)@) == grapheme_models(old(v)@).subrange(0, start as int) + seq![g@]
            + grapheme_models(old(v)@).subrange(end as int, old(v)@.len() as int),
{
    let ghost orig = grapheme_models(v@);
    let mut k: usize = start;
    while k < end
        invariant
            start <= k <= end,
            end <= orig.len(),
            v@.len() == orig.len() - (k - start),
            grapheme_models(v@) == orig.subrange(0, start as int) + orig.subrange(k as int, orig.len() as int),
        decreases end - k,
    {
        let ghost prev = v@;
        v.remove(start);
        proof {
            lemma_models_remove(prev, start as int);
            assert(grapheme_models(v@) =~= orig.subrange(0, start as int) + orig.subrange(k + 1, orig.len() as int));
        }
        k = k + 1;
    }
    let ghost prev = v@;
    v.insert(start, g);
    proof {
        lemma_models_insert(prev, start as int, g);
        assert(grapheme_models(v@) =~= orig.subrange(0, start as int) + seq![g@] + orig.subrange(end as int, orig.len() as int));
    }
}

/// The graphemes of the given strings, each occurring once.
fn single_graphemes(chars: &Vec<String>, config: &RegExpConfig) -> (r: Vec<Grapheme>)
    ensures
        grapheme_models(r@) == singles(strings_view(chars@), *config),
{
    let mut r: Vec<Grapheme> = Vec::new();
    let mut i: usize = 0;
    while i < chars.len()
        invariant
            i <= chars@.len(),
            r@.len() == i,
            forall|j: int| 0 <= j < i ==> (#[trigger] r@[j])@ == single_grapheme(chars@[j]@, *config),
        decreases chars.len() - i,
    {
        r.push(Grapheme::from(chars[i].as_str(), config));
        i = i + 1;
    }
    assert(grapheme_models(r@) =~= singles(strings_view(chars@), *config));
    r
}

/// Converts repeated substrings of the graphemes into `repetitions`: where something
/// repeats, appends the graphemes to it, replaces each repeated span by a repeated
/// grapheme, and appends to each grapheme's repeated parts the conversion of its own
/// strings.
pub(crate) fn convert_repetitions(
    graphemes: &[Grapheme],
    repetitions: &mut Vec<Grapheme>,
    config: &RegExpConfig,
)
    ensures
        grapheme_models(final(repetitions)@) == repetitions_into(
            grapheme_models(old(repetitions)@),
            grapheme_models(graphemes@),
            *config,
        ),
    decreases heights(grapheme_models(old(repetitions)@) + grapheme_models(graphemes@)), size(
        grapheme_models(old(repetitions)@) + grapheme_models(graphemes@),
    ), (grapheme_models(old(repetitions)@) + grapheme_models(graphemes@)).len(), 1int,
{
    let repeated_substrings = collect_repeated_substrings(graphemes);
    let ranges_of_repetitions = create_ranges_of_repetitions(
        &repeated_substrings,
        graphemes.len(),
        config,
        Ghost(values(grapheme_models(graphemes@))),
    );
    let coalesced_repetitions = coalesce_repetitions(ranges_of_repetitions);
    replace_graphemes_with_repetitions(coalesced_repetitions, graphemes, repetitions, config)
}

/// Appends the graphemes, replaces the repeated spans, and converts the strings of
/// each grapheme of the result into its repeated parts.
fn replace_graphemes_with_repetitions(
    coalesced_repetitions: Vec<(usize, usize, Vec<String>)>,
    graphemes: &[Grapheme],
    repetitions: &mut Vec<Grapheme>,
    config: &RegExpConfig,
)
    requires
        ranges_view(coalesced_repetitions@) == coalesced_ranges(grapheme_models(graphemes@), *config),
    ensures
        grapheme_models(final(repetitions)@) == repetitions_into(
            grapheme_models(old(repetitions)@),
            grapheme_models(graphemes@),
            *config,
        ),
    decreases heights(grapheme_models(old(repetitions)@) + grapheme_models(graphemes@)), size(
        grapheme_models(old(repetitions)@) + grapheme_models(graphemes@),
    ), (grapheme_models(old(repetitions)@) + grapheme_models(graphemes@)).len(), 0int,
{
    let ghost gs = grapheme_models(graphemes@);
    let ghost prior = grapheme_models(repetitions@);
    let ghost c = prior + gs;
    let ghost cs = coalesced_ranges(gs, *config);
    proof {
        lemma_coalesced_ranges_ok(gs, *config);
        lemma_ranges_ok_grow(cs, gs.len() as int, c.len() as int);
    }
    if coalesced_repetitions.len() == 0 {
        return;
    }
    let mut i: usize = 0;
    while i < graphemes.len()
        invariant
            i <= graphemes@.len(),
            gs == grapheme_models(graphemes@),
            grapheme_models(repetitions@) == prior + gs.take(i as int),
        decreases graphemes.len() - i,
    {
        let g = graphemes[i].copy();
        let ghost prev = repetitions@;
        repetitions.push(g);
        proof {
            lemma_models_push(prev, g);
            assert(grapheme_models(repetitions@) =~= prior + gs.take(i + 1));
        }
        i = i + 1;
    }
    proof {
        assert(gs.take(i as int) =~= gs);
    }
    let mut t: usize = 0;
    let mut stopped = false;
    while t < coalesced_repetitions.len() && !stopped
        invariant
            t <= coalesced_repetitions@.len(),
            gs == grapheme_models(graphemes@),
            c == prior + gs,
            cs == coalesced_ranges(gs, *config),
            ranges_view(coalesced_repetitions@) == cs,
            ranges_ok(cs, c.len() as int),
            stopped ==> grapheme_models(repetitions@) == splice_ranges(c, cs, *config),
            !stopped ==> splice_ranges(grapheme_models(repetitions@), cs.skip(t as int), *config)
                == splice_ranges(c, cs, *config),
        decreases coalesced_repetitions.len() - t, if stopped {
            0int
        } else {
            1int
        },
    {
        let ghost cur = grapheme_models(repetitions@);
        let ghost r = cs[t as int];
        proof {
            assert(cs.skip(t as int)[0] == r);
            assert(cs.skip(t as int).drop_first() =~= cs.skip(t + 1));
            assert(range_ok(r, c.len() as int));
            assert(r == (
                coalesced_repetitions@[t as int].0 as int,
                coalesced_repetitions@[t as int].1 as int,
                strings_view(coalesced_repetitions@[t as int].2@),
            ));
        }
        let start = coalesced_repetitions[t].0;
        let end = coalesced_repetitions[t].1;
        if end > repetitions.len() {
            stopped = true;
        } else {
            let substr_len = coalesced_repetitions[t].2.len();
            let count = ((end - start) / substr_len) as u32;
            if substr_len < config.minimum_substring_length as usize {
                t = t + 1;
            } else {
                let g = Grapheme::new(
                    copy_strings(&coalesced_repetitions[t].2),
                    count,
                    count,
                    config,
                );
                splice_one(repetitions, start, end, g);
                proof {
                    assert(g@ == repeated_grapheme(r.2, count, *config));
                    assert(grapheme_models(repetitions@) =~= cur.subrange(0, r.0) + seq![
                        repeated_grapheme(r.2, count, *config),
                    ] + cur.subrange(r.1, cur.len() as int));
                }
                t = t + 1;
            }
        }
    }
    proof {
        if !stopped {
            assert(cs.skip(t as int).len() == 0);
        }
        assert forall|k: int| 0 <= k < c.len() implies from_splice(#[trigger] c[k], c) by {}
        lemma_splice_ranges(c, cs, *config, c);
    }
    let ghost v = grapheme_models(repetitions@);
    let ghost out = repetitions_into(prior, gs, *config);
    let mut k: usize = 0;
    while k < repetitions.len()
        invariant
            k <= repetitions@.len(),
            gs == grapheme_models(graphemes@),
            prior == grapheme_models(old(repetitions)@),
            c == prior + gs,
            cs == coalesced_ranges(gs, *config),
            cs.len() > 0,
            c.len() >= 2,
            v == splice_ranges(c, cs, *config),
            out == repetitions_into(prior, gs, *config),
            grapheme_models(repetitions@).len() == v.len(),
            forall|i: int| 0 <= i < v.len() ==> from_splice(#[trigger] v[i], c),
            forall|j: int| k <= j < v.len() ==> #[trigger] grapheme_models(repetitions@)[j] == v[j],
            forall|j: int| 0 <= j < k ==> #[trigger] grapheme_models(repetitions@)[j] == out[j],
        decreases repetitions.len() - k,
    {
        let inner_graphemes = single_graphemes(&repetitions[k].chars, config);
        let mut inner = copy_graphemes(&repetitions[k].repetitions);
        proof {
            assert(grapheme_models(repetitions@)[k as int] == repetitions@[k as int]@);
            assert(repetitions@[k as int]@.chars == strings_view(repetitions@[k as int].chars@));
            assert(grapheme_models(repetitions@[k as int].repetitions@) =~= v[k as int].repetitions);
            lemma_measure_less(v[k as int], c, *config);
            assert(grapheme_models(inner_graphemes@) == singles(v[k as int].chars, *config));
            assert(grapheme_models(inner@) + grapheme_models(inner_graphemes@) == v[k as int].repetitions
                + singles(v[k as int].chars, *config));
        }
        convert_repetitions(&inner_graphemes, &mut inner, config);
        let mut ne = repetitions[k].copy();
        ne.repetitions = inner;
        proof {
            assert(ne@.repetitions =~= grapheme_models(inner@));
            assert(ne@ == out[k as int]);
        }
        let ghost prev = repetitions@;
        repetitions.set(k, ne);
        proof {
            assert forall|j: int| 0 <= j < repetitions@.len() && j != k implies #[trigger] grapheme_models(
                repetitions@,
            )[j] == grapheme_models(prev)[j] by {
                assert(repetitions@[j] == prev[j]);
            }
        }
        k = k + 1;
    }
    proof {
        assert(grapheme_models(repetitions@) =~= out);
    }
}

/// The repeated spans of one key, given its positions.
fn key_ranges(
    key: &Vec<String>,
    idx: &Vec<usize>,
    len: usize,
    min: u32,
    n: usize,
    Ghost(vals): Ghost<Seq<Seq<char>>>,
) -> (r: Vec<(usize, usize, Vec<String>)>)
    requires
        vals.len() == n,
        len >= 1,
        strings_view(key@).len() == len,
        positions(idx@) == occurrences(vals, strings_view(key@)),
        idx@.len() > 0,
    ensures
        ranges_view(r@) == if spaced(positions(idx@), len as int) {
            kept_runs(runs(positions(idx@), len as int), len as int, min).map_values(
                |x: (int, int)| (x.0, x.1, strings_view(key@)),
            )
        } else {
            Seq::<RangeOf>::empty()
        },
{
    let ghost occ = positions(idx@);
    proof {
        lemma_occurrences_below(vals, strings_view(key@), (vals.len() + 1) as int);
        assert forall|a: int| 0 <= a < idx@.len() implies #[trigger] idx@[a] + len <= vals.len() by {
            assert(occ[a] == idx@[a]);
            assert(occurs_at(vals, strings_view(key@), occ[a]));
        }
        assert forall|a: int, b: int| 0 <= a < b < idx@.len() implies #[trigger] idx@[a] < #[trigger] idx@[b] by {
            assert(occ[a] == idx@[a]);
            assert(occ[b] == idx@[b]);
        }
    }
    let mut t: usize = 0;
    let m = idx.len();
    while t + 1 < m
        invariant
            m == idx@.len(),
            occ == positions(idx@),
            t < idx@.len(),
            forall|a: int, b: int| 0 <= a < b < idx@.len() ==> #[trigger] idx@[a] < #[trigger] idx@[b],
            forall|u: int| 0 <= u < t ==> occ[u + 1] - #[trigger] occ[u] >= len,
        decreases idx.len() - t,
    {
        if idx[t + 1] - idx[t] < len {
            proof {
                assert(occ[t + 1] - occ[t as int] < len);
            }
            return Vec::new();
        }
        t = t + 1;
    }
    let mut rs: Vec<(usize, usize)> = Vec::new();
    let mut k: usize = 0;
    while k < idx.len()
        invariant
            occ == positions(idx@),
            k <= idx@.len(),
            forall|a: int| 0 <= a < idx@.len() ==> #[trigger] idx@[a] + len <= vals.len(),
            vals.len() == n,
            forall|a: int| 0 <= a < rs@.len() ==> (#[trigger] rs@[a]).0 <= rs@[a].1,
            rs@.map_values(|x: (usize, usize)| (x.0 as int, x.1 as int)) == runs(occ.take(k as int), len as int),
        decreases idx.len() - k,
    {
        let x = idx[k];
        let ghost prev = rs@.map_values(|x: (usize, usize)| (x.0 as int, x.1 as int));
        proof {
            assert(occ.take(k + 1).drop_last() =~= occ.take(k as int));
            assert(occ.take(k + 1).last() == x);
        }
        if rs.len() > 0 && rs[rs.len() - 1].1 == x {
            let last = rs.len() - 1;
            let start = rs[last].0;
            rs.set(last, (start, x + len));
            proof {
                assert(rs@.map_values(|x: (usize, usize)| (x.0 as int, x.1 as int)) =~= prev.drop_last().push((prev.last().0, x + len)));
            }
        } else {
            rs.push((x, x + len));
            proof {
                assert(rs@.map_values(|x: (usize, usize)| (x.0 as int, x.1 as int)) =~= prev.push((x as int, x + len)));
            }
        }
        k = k + 1;
    }
    proof {
        assert(occ.take(k as int) =~= occ);
    }
    let ghost all_runs = runs(occ, len as int);
    let mut out: Vec<(usize, usize, Vec<String>)> = Vec::new();
    let mut q: usize = 0;
    while q < rs.len()
        invariant
            q <= rs@.len(),
            rs@.map_values(|x: (usize, usize)| (x.0 as int, x.1 as int)) == all_runs,
            forall|a: int| 0 <= a < rs@.len() ==> (#[trigger] rs@[a]).0 <= rs@[a].1,
            len >= 1,
            ranges_view(out@) == kept_runs(all_runs.take(q as int), len as int, min).map_values(
                |x: (int, int)| (x.0, x.1, strings_view(key@)),
            ),
        decreases rs.len() - q,
    {
        let (start, end) = rs[q];
        let ghost prev = out@;
        proof {
            assert(all_runs.take(q + 1).drop_last() =~= all_runs.take(q as int));
            assert(all_runs.take(q + 1).last() == (start as int, end as int));
        }
        let count = ((end - start) / len) as u32;
        if count > min {
            out.push((start, end, copy_strings(key)));
            proof {
                assert(ranges_view(out@) =~= ranges_view(prev).push((start as int, end as int, strings_view(key@))));
            }
        }
        q = q + 1;
        proof {
            assert(ranges_view(out@) =~= kept_runs(all_runs.take(q as int), len as int, min).map_values(
                |x: (int, int)| (x.0, x.1, strings_view(key@)),
            ));
        }
    }
    proof {
        assert(all_runs.take(q as int) =~= all_runs);
    }
    out
}


/// No span of the sequence comes before one that precedes it.
pub open spec fn ranges_sorted(s: Seq<RangeOf>) -> bool {
    forall|i: int, j: int| 0 <= i < j < s.len() ==> !comes_before(#[trigger] s[j], #[trigger] s[i])
}

/// Every element of `t` is `m` or an element of `s`.
pub open spec fn drawn_from(t: Seq<RangeOf>, s: Seq<RangeOf>, m: RangeOf) -> bool {
    forall|i: int| 0 <= i < t.len() ==> (#[trigger] t[i] == m || s.contains(t[i]))
}

proof fn lemma_insert_range_sorted(s: Seq<RangeOf>, m: RangeOf)
    requires
        ranges_sorted(s),
    ensures
        ranges_sorted(insert_range(s, m)),
        drawn_from(insert_range(s, m), s, m),
        insert_range(s, m).contains(m),
        forall|x: RangeOf| s.contains(x) ==> insert_range(s, m).contains(x),
    decreases s.len(),
{
    let t = insert_range(s, m);
    if s.len() == 0 {
        assert(t[0] == m);
    } else if comes_before(m, s[0]) {
        assert(t == seq![m] + s);
        assert forall|i: int, j: int| 0 <= i < j < t.len() implies !comes_before(#[trigger] t[j], #[trigger] t[i]) by {
            if i == 0 {
                assert(t[j] == s[j - 1]);
                if j - 1 > 0 {
                    assert(!comes_before(s[j - 1], s[0]));
                }
            } else {
                assert(t[i] == s[i - 1]);
                assert(t[j] == s[j - 1]);
            }
        }
        assert forall|i: int| 0 <= i < t.len() implies (#[trigger] t[i] == m || s.contains(t[i])) by {
            if i > 0 {
                assert(t[i] == s[i - 1]);
            }
        }
        assert(t[0] == m);
        assert forall|x: RangeOf| s.contains(x) implies t.contains(x) by {
            let k = choose|k: int| 0 <= k < s.len() && s[k] == x;
            assert(t[k + 1] == x);
        }
    } else {
        let r = s.drop_first();
        assert(ranges_sorted(r)) by {
            assert forall|i: int, j: int| 0 <= i < j < r.len() implies !comes_before(#[trigger] r[j], #[trigger] r[i]) by {
                assert(r[i] == s[i + 1]);
                assert(r[j] == s[j + 1]);
            }
        }
        lemma_insert_range_sorted(r, m);
        let u = insert_range(r, m);
        assert(t == seq![s[0]] + u);
        assert forall|i: int, j: int| 0 <= i < j < t.len() implies !comes_before(#[trigger] t[j], #[trigger] t[i]) by {
            if i == 0 {
                assert(t[j] == u[j - 1]);
                if u[j - 1] != m {
                    assert(r.contains(u[j - 1]));
                    let k = choose|k: int| 0 <= k < r.len() && r[k] == u[j - 1];
                    assert(s[k + 1] == u[j - 1]);
                }
            } else {
                assert(t[i] == u[i - 1]);
                assert(t[j] == u[j - 1]);
            }
        }
        assert forall|i: int| 0 <= i < t.len() implies (#[trigger] t[i] == m || s.contains(t[i])) by {
            if i == 0 {
                assert(s[0] == t[0]);
            } else {
                assert(t[i] == u[i - 1]);
                if u[i - 1] != m {
                    let k = choose|k: int| 0 <= k < r.len() && r[k] == u[i - 1];
                    assert(s[k + 1] == t[i]);
                }
            }
        }
        let q = choose|q: int| 0 <= q < u.len() && u[q] == m;
        assert(t[q + 1] == m);
        assert forall|x: RangeOf| s.contains(x) implies t.contains(x) by {
            let k = choose|k: int| 0 <= k < s.len() && s[k] == x;
            if k == 0 {
                assert(t[0] == x);
            } else {
                assert(r[k - 1] == x);
                assert(r.contains(x));
                assert(u.contains(x));
                let w = choose|w: int| 0 <= w < u.len() && u[w] == x;
                assert(t[w + 1] == x);
            }
        }
    }
}

/// Sorting gives a sorted sequence of the same spans.
proof fn lemma_sort_ranges_sorted(s: Seq<RangeOf>)
    ensures
        ranges_sorted(sort_ranges(s)),
        forall|i: int| 0 <= i < sort_ranges(s).len() ==> s.contains(#[trigger] sort_ranges(s)[i]),
    decreases s.len(),
{
    if s.len() > 0 {
        lemma_sort_ranges_sorted(s.drop_last());
        let p = sort_ranges(s.drop_last());
        lemma_insert_range_sorted(p, s.last());
        let t = sort_ranges(s);
        assert forall|i: int| 0 <= i < t.len() implies s.contains(#[trigger] t[i]) by {
            if t[i] == s.last() {
                assert(s[s.len() - 1] == t[i]);
            } else {
                assert(p.contains(t[i]));
                let k = choose|k: int| 0 <= k < p.len() && p[k] == t[i];
                assert(s.drop_last().contains(t[i]));
                let w = choose|w: int| 0 <= w < s.drop_last().len() && s.drop_last()[w] == t[i];
                assert(s[w] == t[i]);
            }
        }
    }
}

/// Each span ends where the one before it starts, or before.
pub open spec fn descending_disjoint(r: Seq<RangeOf>) -> bool {
    forall|i: int| 0 <= i < r.len() - 1 ==> (#[trigger] r[i + 1]).1 <= r[i].0
}

/// Coalescing sorted spans keeps disjoint spans, each ending where the one kept
/// before it starts, or before.
proof fn lemma_coalesce_descending(s: Seq<RangeOf>, n: int)
    requires
        ranges_sorted(s),
        ranges_ok(s, n),
    ensures
        descending_disjoint(coalesce_ranges(s)),
        forall|i: int| 0 <= i < coalesce_ranges(s).len() ==> s.contains(#[trigger] coalesce_ranges(s)[i]),
    decreases s.len(),
{
    if s.len() > 0 {
        let d = s.drop_last();
        assert(ranges_sorted(d)) by {
            assert forall|i: int, j: int| 0 <= i < j < d.len() implies !comes_before(#[trigger] d[j], #[trigger] d[i]) by {
                assert(d[i] == s[i]);
                assert(d[j] == s[j]);
            }
        }
        assert(ranges_ok(d, n)) by {
            assert forall|i: int| 0 <= i < d.len() implies range_ok(#[trigger] d[i], n) by {
                assert(d[i] == s[i]);
            }
        }
        lemma_coalesce_descending(d, n);
        let acc = coalesce_ranges(d);
        let x = s.last();
        let r = coalesce_ranges(s);
        assert forall|i: int| 0 <= i < acc.len() implies s.contains(#[trigger] acc[i]) by {
            assert(d.contains(acc[i]));
            let k = choose|k: int| 0 <= k < d.len() && d[k] == acc[i];
            assert(s[k] == acc[i]);
        }
        if acc.len() > 0 && overlaps(acc.last(), x) {
            assert(r == acc);
        } else {
            assert(r == acc.push(x));
            if acc.len() > 0 {
                let f = acc.last();
                assert(f == acc[acc.len() - 1]);
                assert(d.contains(f));
                let k = choose|k: int| 0 <= k < d.len() && d[k] == f;
                assert(s[k] == f);
                assert(!comes_before(s[s.len() - 1], s[k]));
                assert(range_ok(s[k], n));
                assert(range_ok(s[s.len() - 1], n));
                assert(x.1 <= f.0);
            }
            assert forall|i: int| 0 <= i < r.len() - 1 implies (#[trigger] r[i + 1]).1 <= r[i].0 by {
                if i < acc.len() - 1 {
                    assert(r[i + 1] == acc[i + 1]);
                    assert(r[i] == acc[i]);
                }
            }
            assert forall|i: int| 0 <= i < r.len() implies s.contains(#[trigger] r[i]) by {
                if i < acc.len() {
                    assert(r[i] == acc[i]);
                } else {
                    assert(s[s.len() - 1] == r[i]);
                }
            }
        }
    }
}

/// The graphemes of the span repeat its values: the span is a whole number of
/// repetitions, and each of its graphemes has the value at its place in the key.
pub open spec fn periodic(vals: Seq<Seq<char>>, r: RangeOf) -> bool {
    let len = r.2.len() as int;
    &&& len > 0
    &&& 0 <= r.0 < r.1 <= vals.len()
    &&& (r.1 - r.0) % len == 0
    &&& forall|i: int| r.0 <= i < r.1 ==> #[trigger] vals[i] == r.2[(i - r.0) % len]
}

/// A multiple of `len` plus less than `len` leaves the remainder.
proof fn lemma_shift_mod(d: int, e: int, len: int)
    requires
        len > 0,
        d >= 0,
        d % len == 0,
        0 <= e < len,
    ensures
        (d + e) % len == e,
{
    vstd::arithmetic::div_mod::lemma_fundamental_div_mod(d, len);
    vstd::arithmetic::div_mod::lemma_mod_multiples_vanish(d / len, e, len);
    vstd::arithmetic::div_mod::lemma_small_mod(e as nat, len as nat);
    assert(d == len * (d / len));
}

/// The spans of positions of a key repeat the key.
proof fn lemma_runs_periodic(vals: Seq<Seq<char>>, key: Seq<Seq<char>>, idx: Seq<int>)
    requires
        key.len() >= 1,
        forall|j: int| 0 <= j < idx.len() ==> occurs_at(vals, key, #[trigger] idx[j]),
    ensures
        forall|j: int|
            0 <= j < runs(idx, key.len() as int).len() ==> periodic(
                vals,
                (runs(idx, key.len() as int)[j].0, runs(idx, key.len() as int)[j].1, key),
            ),
    decreases idx.len(),
{
    let len = key.len() as int;
    if idx.len() > 0 {
        let d = idx.drop_last();
        assert forall|j: int| 0 <= j < d.len() implies occurs_at(vals, key, #[trigger] d[j]) by {
            assert(d[j] == idx[j]);
        }
        lemma_runs_periodic(vals, key, d);
        let r = runs(d, len);
        let x = idx.last();
        assert(occurs_at(vals, key, idx[idx.len() - 1]));
        let t = runs(idx, len);
        assert forall|i: int| x <= i < x + len implies #[trigger] vals[i] == key[i - x] by {
            assert(window(vals, x, len)[i - x] == vals[i]);
        }
        if r.len() > 0 && r.last().1 == x {
            let a = r.last().0;
            assert(r.last() == r[r.len() - 1]);
            assert(periodic(vals, (a, x, key)));
            assert(t == r.drop_last().push((a, x + len)));
            vstd::arithmetic::div_mod::lemma_mod_add_multiples_vanish(x - a, len);
            assert((x + len - a) % len == 0);
            assert forall|i: int| a <= i < x + len implies #[trigger] vals[i] == key[(i - a) % len] by {
                if i >= x {
                    lemma_shift_mod(x - a, i - x, len);
                    assert(i - a == (x - a) + (i - x));
                }
            }
            assert(periodic(vals, (a, x + len, key)));
            assert forall|j: int| 0 <= j < t.len() implies periodic(vals, (t[j].0, t[j].1, key)) by {
                if j < t.len() - 1 {
                    assert(t[j] == r[j]);
                }
            }
        } else {
            assert(t == r.push((x, x + len)));
            assert forall|i: int| x <= i < x + len implies #[trigger] vals[i] == key[(i - x) % len] by {
                vstd::arithmetic::div_mod::lemma_small_mod((i - x) as nat, len as nat);
            }
            vstd::arithmetic::div_mod::lemma_mod_self_0(len);
            assert(periodic(vals, (x, x + len, key)));
            assert forall|j: int| 0 <= j < t.len() implies periodic(vals, (t[j].0, t[j].1, key)) by {
                if j < t.len() - 1 {
                    assert(t[j] == r[j]);
                }
            }
        }
    }
}

/// Every span repeats its values.
pub open spec fn all_periodic(vals: Seq<Seq<char>>, s: Seq<RangeOf>) -> bool {
    forall|k: int| 0 <= k < s.len() ==> periodic(vals, #[trigger] s[k])
}

/// The spans kept are among the spans.
proof fn lemma_kept_runs_from(rs: Seq<(int, int)>, len: int, min: u32)
    ensures
        forall|a: int|
            0 <= a < kept_runs(rs, len, min).len() ==> rs.contains(#[trigger] kept_runs(rs, len, min)[a]),
    decreases rs.len(),
{
    if rs.len() > 0 {
        lemma_kept_runs_from(rs.drop_last(), len, min);
        let a = kept_runs(rs.drop_last(), len, min);
        let r = rs.last();
        let e = if ((r.1 - r.0) / len) as u32 > min {
            seq![r]
        } else {
            Seq::<(int, int)>::empty()
        };
        assert(kept_runs(rs, len, min) == a + e);
        assert forall|j: int| 0 <= j < (a + e).len() implies rs.contains(#[trigger] (a + e)[j]) by {
            if j < a.len() {
                assert((a + e)[j] == a[j]);
                let m = choose|m: int| 0 <= m < rs.drop_last().len() && rs.drop_last()[m] == a[j];
                assert(rs[m] == a[j]);
            } else {
                assert((a + e)[j] == r);
                assert(rs[rs.len() - 1] == r);
            }
        }
    }
}

/// The spans of the keys of one length repeat their keys.
proof fn lemma_ranges_of_length_periodic(vals: Seq<Seq<char>>, len: int, m: int, min: u32)
    requires
        len >= 1,
    ensures
        all_periodic(vals, ranges_of_length(vals, len, m, min)),
    decreases m,
{
    if m > 0 {
        lemma_ranges_of_length_periodic(vals, len, m - 1, min);
        let i = m - 1;
        let key = window(vals, i, len);
        let occ = occurrences(vals, key);
        let e = entry_ranges(vals, i, len, min);
        if 0 <= i && i + len <= vals.len() && occ.len() > 0 && occ[0] == i && spaced(occ, len) {
            lemma_occurrences_below(vals, key, (vals.len() + 1) as int);
            assert(key.len() == len);
            lemma_runs_periodic(vals, key, occ);
            let rs = runs(occ, len);
            lemma_kept_runs_from(rs, len, min);
            let kr = kept_runs(rs, len, min);
            assert forall|j: int| 0 <= j < e.len() implies periodic(vals, #[trigger] e[j]) by {
                assert(e[j] == (kr[j].0, kr[j].1, key));
                assert(rs.contains(kr[j]));
                let q = choose|q: int| 0 <= q < rs.len() && rs[q] == kr[j];
                assert(periodic(vals, (rs[q].0, rs[q].1, key)));
            }
        }
        let a = ranges_of_length(vals, len, m - 1, min);
        assert forall|j: int| 0 <= j < (a + e).len() implies periodic(vals, #[trigger] (a + e)[j]) by {
            if j < a.len() {
                assert((a + e)[j] == a[j]);
            } else {
                assert((a + e)[j] == e[j - a.len()]);
            }
        }
    }
}

/// The spans of the keys longer than `len` repeat their keys.
proof fn lemma_ranges_above_periodic(vals: Seq<Seq<char>>, len: int, min: u32)
    requires
        len >= 0,
    ensures
        all_periodic(vals, ranges_above(vals, len, min)),
    decreases vals.len() / 2 - len,
{
    if len < vals.len() / 2 {
        lemma_ranges_above_periodic(vals, len + 1, min);
        lemma_ranges_of_length_periodic(vals, len + 1, vals.len() - len, min);
        let a = ranges_above(vals, len + 1, min);
        let e = ranges_of_length(vals, len + 1, vals.len() - len, min);
        assert forall|j: int| 0 <= j < (a + e).len() implies periodic(vals, #[trigger] (a + e)[j]) by {
            if j < a.len() {
                assert((a + e)[j] == a[j]);
            } else {
                assert((a + e)[j] == e[j - a.len()]);
            }
        }
    }
}

/// The spans that replace graphemes repeat their values, and each ends where the
/// one before it starts, or before.
proof fn lemma_coalesced_periodic(gs: Seq<GraphemeModel>, config: RegExpConfig)
    ensures
        all_periodic(values(gs), coalesced_ranges(gs, config)),
        descending_disjoint(coalesced_ranges(gs, config)),
{
    let vals = values(gs);
    let min = config.minimum_repetitions;
    let ra = ranges_above(vals, 0, min);
    lemma_ranges_above_periodic(vals, 0, min);
    lemma_ranges_above_ok(vals, 0, min);
    let sr = sort_ranges(ra);
    lemma_sort_ranges_sorted(ra);
    lemma_sort_ranges_ok(ra, gs.len() as int);
    lemma_coalesce_descending(sr, gs.len() as int);
    let cs = coalesce_ranges(sr);
    assert forall|k: int| 0 <= k < cs.len() implies periodic(vals, #[trigger] cs[k]) by {
        assert(sr.contains(cs[k]));
        let q = choose|q: int| 0 <= q < sr.len() && sr[q] == cs[k];
        assert(ra.contains(sr[q]));
        let w = choose|w: int| 0 <= w < ra.len() && ra[w] == sr[q];
        assert(periodic(vals, ra[w]));
    }
}

/// The first `k` repetitions of a span's values, one after the other, spell the
/// values of its first `k * len` graphemes.
proof fn lemma_periodic_prefix(vals: Seq<Seq<char>>, r: RangeOf, k: int)
    requires
        periodic(vals, r),
        0 <= k,
        r.0 + k * r.2.len() <= r.1,
    ensures
        vals.subrange(r.0, r.0 + k * r.2.len()).flatten() == repeat_text(r.2.flatten(), k as nat),
    decreases k,
{
    let len = r.2.len() as int;
    if k == 0 {
        assert(k * len == 0) by (nonlinear_arith)
            requires
                k == 0,
        ;
        assert(vals.subrange(r.0, r.0) =~= Seq::<Seq<char>>::empty());
        assert(repeat_text(r.2.flatten(), 0) =~= Seq::<char>::empty());
    } else {
        assert(k * len == (k - 1) * len + len) by (nonlinear_arith);
        assert((k - 1) * len >= 0) by (nonlinear_arith)
            requires
                k >= 1,
                len >= 1,
        ;
        lemma_periodic_prefix(vals, r, k - 1);
        let d = (k - 1) * len;
        vstd::arithmetic::div_mod::lemma_mod_multiples_basic(k - 1, len);
        assert(d % len == 0);
        let block = vals.subrange(r.0 + d, r.0 + d + len);
        assert forall|e: int| 0 <= e < len implies #[trigger] block[e] == r.2[e] by {
            lemma_shift_mod(d, e, len);
            assert(vals[r.0 + d + e] == r.2[(r.0 + d + e - r.0) % len]);
        }
        assert(block =~= r.2);
        assert(vals.subrange(r.0, r.0 + k * len) =~= vals.subrange(r.0, r.0 + d) + block);
        vstd::seq_lib::lemma_flatten_concat(vals.subrange(r.0, r.0 + d), block);
        assert(repeat_text(r.2.flatten(), k as nat) == repeat_text(r.2.flatten(), (k - 1) as nat)
            + r.2.flatten());
    }
}

/// The values of a span's graphemes, one after the other, are its values repeated
/// as often as the span holds them.
proof fn lemma_periodic_text(vals: Seq<Seq<char>>, r: RangeOf)
    requires
        periodic(vals, r),
    ensures
        vals.subrange(r.0, r.1).flatten() == repeat_text(
            r.2.flatten(),
            ((r.1 - r.0) / (r.2.len() as int)) as nat,
        ),
{
    let len = r.2.len() as int;
    let m = (r.1 - r.0) / len;
    vstd::arithmetic::div_mod::lemma_fundamental_div_mod(r.1 - r.0, len);
    assert(r.1 - r.0 == len * m);
    assert(len * m == m * len) by (nonlinear_arith);
    assert(m >= 0) by (nonlinear_arith)
        requires
            r.1 - r.0 >= 0,
            len >= 1,
            m == (r.1 - r.0) / len,
    ;
    lemma_periodic_prefix(vals, r, m);
}

/// Replacing, from right to left, spans that repeat their values by repeated
/// graphemes keeps the text that the graphemes stand for.
proof fn lemma_splice_text(
    gs: Seq<GraphemeModel>,
    v: Seq<GraphemeModel>,
    rs: Seq<RangeOf>,
    f: int,
    config: RegExpConfig,
)
    requires
        forall|i: int| 0 <= i < gs.len() ==> (#[trigger] gs[i]).min == 1,
        gs.len() <= u32::MAX,
        0 <= f <= gs.len(),
        f <= v.len(),
        v.subrange(0, f) == gs.subrange(0, f),
        written_out(v.subrange(f, v.len() as int)) == spelled(gs.subrange(f, gs.len() as int)),
        all_periodic(values(gs), rs),
        descending_disjoint(rs),
        rs.len() > 0 ==> rs[0].1 <= f,
    ensures
        written_out(splice_ranges(v, rs, config)) == spelled(gs),
    decreases rs.len(),
{
    let n = gs.len() as int;
    let vals = values(gs);
    if rs.len() == 0 {
        assert(v =~= v.subrange(0, f) + v.subrange(f, v.len() as int));
        assert(gs =~= gs.subrange(0, f) + gs.subrange(f, n));
        lemma_written_out_concat(v.subrange(0, f), v.subrange(f, v.len() as int));
        lemma_written_out_concat(gs.subrange(0, f), gs.subrange(f, n));
        lemma_written_out_once(gs.subrange(0, f));
    } else {
        let r = rs[0];
        let rest = rs.drop_first();
        assert(periodic(vals, r));
        assert(all_periodic(vals, rest)) by {
            assert forall|k: int| 0 <= k < rest.len() implies periodic(vals, #[trigger] rest[k]) by {
                assert(rest[k] == rs[k + 1]);
            }
        }
        assert(descending_disjoint(rest)) by {
            assert forall|k: int| 0 <= k < rest.len() - 1 implies (#[trigger] rest[k + 1]).1
                <= rest[k].0 by {
                assert(rest[k + 1] == rs[k + 2]);
                assert(rest[k] == rs[k + 1]);
            }
        }
        if rest.len() > 0 {
            assert(rest[0] == rs[1]);
            assert(rs[1].1 <= rs[0].0);
        }
        if r.2.len() < config.minimum_substring_length {
            lemma_splice_text(gs, v, rest, f, config);
        } else {
            let len = r.2.len() as int;
            let count = ((r.1 - r.0) / len) as u32;
            assert((r.1 - r.0) / len <= r.1 - r.0) by (nonlinear_arith)
                requires
                    r.1 - r.0 >= 0,
                    len >= 1,
            ;
            assert(count == (r.1 - r.0) / len);
            let g = repeated_grapheme(r.2, count, config);
            let w = v.subrange(0, r.0) + seq![g] + v.subrange(r.1, v.len() as int);
            assert(w.subrange(0, r.0) =~= v.subrange(0, r.0));
            assert(v.subrange(0, r.0) =~= gs.subrange(0, r.0)) by {
                assert forall|i: int| 0 <= i < r.0 implies #[trigger] v[i] == gs[i] by {
                    assert(v.subrange(0, f)[i] == gs.subrange(0, f)[i]);
                }
            }
            let tail = w.subrange(r.0, w.len() as int);
            assert(tail =~= seq![g] + (v.subrange(r.1, f) + v.subrange(f, v.len() as int)));
            assert(v.subrange(r.1, f) =~= gs.subrange(r.1, f)) by {
                assert forall|i: int| 0 <= i < f - r.1 implies #[trigger] v.subrange(r.1, f)[i]
                    == gs.subrange(r.1, f)[i] by {
                    assert(v.subrange(0, f)[r.1 + i] == gs.subrange(0, f)[r.1 + i]);
                }
            }
            lemma_written_out_concat(v.subrange(r.1, f), v.subrange(f, v.len() as int));
            lemma_written_out_concat(seq![g], v.subrange(r.1, f) + v.subrange(f, v.len() as int));
            lemma_written_out_one(g);
            assert(g.chars.flatten() == r.2.flatten());
            lemma_periodic_text(vals, r);
            lemma_written_out_once(gs.subrange(r.1, f));
            assert(gs.subrange(r.0, r.1).map_values(|g: GraphemeModel| g.value()) =~= vals.subrange(
                r.0,
                r.1,
            ));
            assert(gs.subrange(r.0, n) =~= gs.subrange(r.0, r.1) + (gs.subrange(r.1, f)
                + gs.subrange(f, n)));
            lemma_written_out_concat(gs.subrange(r.1, f), gs.subrange(f, n));
            lemma_written_out_concat(gs.subrange(r.0, r.1), gs.subrange(r.1, f) + gs.subrange(f, n));
            assert(written_out(tail) == spelled(gs.subrange(r.0, n)));
            lemma_splice_text(gs, w, rest, r.0, config);
        }
    }
}

/// Converting repetitions keeps the text: where graphemes that each occur once
/// hold repeated spans, the graphemes that replace them, each written out as often
/// as it repeats, spell the values of the graphemes one after the other.
pub proof fn lemma_repetitions_keep_text(gs: Seq<GraphemeModel>, config: RegExpConfig)
    requires
        forall|i: int| 0 <= i < gs.len() ==> (#[trigger] gs[i]).min == 1,
        gs.len() <= u32::MAX,
        coalesced_ranges(gs, config).len() > 0,
    ensures
        written_out(repetitions_of(gs, config)) == spelled(gs),
{
    let cs = coalesced_ranges(gs, config);
    lemma_coalesced_periodic(gs, config);
    let n = gs.len() as int;
    if cs.len() > 0 {
        assert(periodic(values(gs), cs[0]));
    }
    assert(gs.subrange(0, n) =~= gs);
    assert(gs.subrange(n, n) =~= Seq::<GraphemeModel>::empty());
    assert(written_out(Seq::<GraphemeModel>::empty()) =~= Seq::<char>::empty());
    assert(spelled(Seq::<GraphemeModel>::empty()) =~= Seq::<char>::empty());
    lemma_splice_text(gs, gs, cs, n, config);
    let v = splice_ranges(gs, cs, config);
    let out = repetitions_of(gs, config);
    assert(out.len() == v.len());
    let wf = |g: GraphemeModel| repeat_text(g.value(), g.min as nat);
    assert(out.map_values(wf) =~= v.map_values(wf)) by {
        assert forall|i: int| 0 <= i < v.len() implies #[trigger] out[i].chars == v[i].chars
            && out[i].min == v[i].min by {
        }
    }
}

/// A grapheme that stands once, or a repeated one of at least the least substring
/// length.
pub open spec fn once_or_long_enough(g: GraphemeModel, config: RegExpConfig) -> bool {
    g.min == 1 || (g.chars.len() >= config.minimum_substring_length && g.min
        > config.minimum_repetitions)
}

/// A span whose values repeat more often than `min` times.
pub open spec fn repeats_enough(r: RangeOf, min: u32) -> bool {
    ((r.1 - r.0) / (r.2.len() as int)) as u32 > min
}

/// Spans whose values each repeat more often than `min` times.
pub open spec fn all_repeat_enough(rs: Seq<RangeOf>, min: u32) -> bool {
    forall|i: int| 0 <= i < rs.len() ==> repeats_enough(#[trigger] rs[i], min)
}

proof fn lemma_kept_runs_repeat(rs: Seq<(int, int)>, len: int, min: u32)
    ensures
        forall|a: int|
            0 <= a < kept_runs(rs, len, min).len() ==> (((#[trigger] kept_runs(rs, len, min)[a]).1
                - kept_runs(rs, len, min)[a].0) / len) as u32 > min,
    decreases rs.len(),
{
    if rs.len() > 0 {
        lemma_kept_runs_repeat(rs.drop_last(), len, min);
        let a = kept_runs(rs.drop_last(), len, min);
        let r = rs.last();
        let e = if ((r.1 - r.0) / len) as u32 > min {
            seq![r]
        } else {
            Seq::<(int, int)>::empty()
        };
        assert(kept_runs(rs, len, min) == a + e);
        assert forall|j: int| 0 <= j < (a + e).len() implies ((((#[trigger] (a + e)[j]).1 - (a
            + e)[j].0) / len) as u32 > min) by {
            if j < a.len() {
                assert((a + e)[j] == a[j]);
            } else {
                assert((a + e)[j] == e[j - a.len()]);
            }
        }
    }
}

proof fn lemma_all_repeat_enough_concat(a: Seq<RangeOf>, e: Seq<RangeOf>, min: u32)
    requires
        all_repeat_enough(a, min),
        all_repeat_enough(e, min),
    ensures
        all_repeat_enough(a + e, min),
{
    assert forall|j: int| 0 <= j < (a + e).len() implies repeats_enough(#[trigger] (a + e)[j], min) by {
        if j < a.len() {
            assert((a + e)[j] == a[j]);
        } else {
            assert((a + e)[j] == e[j - a.len()]);
        }
    }
}

proof fn lemma_ranges_of_length_repeat(vals: Seq<Seq<char>>, len: int, m: int, min: u32)
    requires
        len >= 1,
    ensures
        all_repeat_enough(ranges_of_length(vals, len, m, min), min),
    decreases m,
{
    if m > 0 {
        lemma_ranges_of_length_repeat(vals, len, m - 1, min);
        let i = m - 1;
        let key = window(vals, i, len);
        let occ = occurrences(vals, key);
        let e = entry_ranges(vals, i, len, min);
        if 0 <= i && i + len <= vals.len() && occ.len() > 0 && occ[0] == i && spaced(occ, len) {
            assert(key.len() == len);
            let k = kept_runs(runs(occ, len), len, min);
            lemma_kept_runs_repeat(runs(occ, len), len, min);
            assert forall|a: int| 0 <= a < e.len() implies repeats_enough(#[trigger] e[a], min) by {
                assert(e[a] == (k[a].0, k[a].1, key));
            }
        }
        lemma_all_repeat_enough_concat(ranges_of_length(vals, len, m - 1, min), e, min);
    }
}

proof fn lemma_ranges_above_repeat(vals: Seq<Seq<char>>, len: int, min: u32)
    requires
        len >= 0,
    ensures
        all_repeat_enough(ranges_above(vals, len, min), min),
    decreases vals.len() / 2 - len,
{
    if len < vals.len() / 2 {
        lemma_ranges_above_repeat(vals, len + 1, min);
        lemma_ranges_of_length_repeat(vals, len + 1, vals.len() - len, min);
        lemma_all_repeat_enough_concat(
            ranges_above(vals, len + 1, min),
            ranges_of_length(vals, len + 1, vals.len() - len, min),
            min,
        );
    }
}

proof fn lemma_insert_range_repeat(s: Seq<RangeOf>, m: RangeOf, min: u32)
    requires
        all_repeat_enough(s, min),
        repeats_enough(m, min),
    ensures
        all_repeat_enough(insert_range(s, m), min),
    decreases s.len(),
{
    if s.len() > 0 && !comes_before(m, s[0]) {
        lemma_insert_range_repeat(s.drop_first(), m, min);
        assert(all_repeat_enough(s.drop_first(), min)) by {
            assert forall|j: int| 0 <= j < s.drop_first().len() implies repeats_enough(
                #[trigger] s.drop_first()[j],
                min,
            ) by {
                assert(s.drop_first()[j] == s[j + 1]);
            }
        }
        lemma_all_repeat_enough_concat(seq![s[0]], insert_range(s.drop_first(), m), min);
    } else {
        lemma_all_repeat_enough_concat(seq![m], s, min);
    }
}

proof fn lemma_sort_ranges_repeat(s: Seq<RangeOf>, min: u32)
    requires
        all_repeat_enough(s, min),
    ensures
        all_repeat_enough(sort_ranges(s), min),
    decreases s.len(),
{
    if s.len() > 0 {
        assert(all_repeat_enough(s.drop_last(), min));
        lemma_sort_ranges_repeat(s.drop_last(), min);
        assert(repeats_enough(s[s.len() - 1], min));
        lemma_insert_range_repeat(sort_ranges(s.drop_last()), s.last(), min);
    }
}

proof fn lemma_coalesce_ranges_repeat(s: Seq<RangeOf>, min: u32)
    requires
        all_repeat_enough(s, min),
    ensures
        all_repeat_enough(coalesce_ranges(s), min),
    decreases s.len(),
{
    if s.len() > 0 {
        assert(all_repeat_enough(s.drop_last(), min));
        lemma_coalesce_ranges_repeat(s.drop_last(), min);
        assert(repeats_enough(s[s.len() - 1], min));
        let acc = coalesce_ranges(s.drop_last());
        if !(acc.len() > 0 && overlaps(acc.last(), s.last())) {
            lemma_all_repeat_enough_concat(acc, seq![s.last()], min);
            assert(acc.push(s.last()) =~= acc + seq![s.last()]);
        }
    }
}

proof fn lemma_splice_ranges_long_enough(
    v: Seq<GraphemeModel>,
    rs: Seq<RangeOf>,
    config: RegExpConfig,
    n: int,
)
    requires
        ranges_ok(rs, n),
        all_repeat_enough(rs, config.minimum_repetitions),
        forall|i: int| 0 <= i < v.len() ==> once_or_long_enough(#[trigger] v[i], config),
    ensures
        forall|i: int|
            0 <= i < splice_ranges(v, rs, config).len() ==> once_or_long_enough(
                #[trigger] splice_ranges(v, rs, config)[i],
                config,
            ),
    decreases rs.len(),
{
    if rs.len() > 0 {
        let r = rs[0];
        assert(range_ok(rs[0], n));
        assert(repeats_enough(rs[0], config.minimum_repetitions));
        assert(all_repeat_enough(rs.drop_first(), config.minimum_repetitions)) by {
            assert forall|j: int| 0 <= j < rs.drop_first().len() implies repeats_enough(
                #[trigger] rs.drop_first()[j],
                config.minimum_repetitions,
            ) by {
                assert(rs.drop_first()[j] == rs[j + 1]);
            }
        }
        assert(ranges_ok(rs.drop_first(), n)) by {
            assert forall|j: int| 0 <= j < rs.drop_first().len() implies range_ok(
                #[trigger] rs.drop_first()[j],
                n,
            ) by {
                assert(rs.drop_first()[j] == rs[j + 1]);
                assert(range_ok(rs[j + 1], n));
            }
        }
        if r.1 > v.len() {
            assert(splice_ranges(v, rs, config) == v);
        } else if r.2.len() < config.minimum_substring_length {
            lemma_splice_ranges_long_enough(v, rs.drop_first(), config, n);
            assert(splice_ranges(v, rs, config) == splice_ranges(v, rs.drop_first(), config));
        } else {
            let count = ((r.1 - r.0) / (r.2.len() as int)) as u32;
            let g = repeated_grapheme(r.2, count, config);
            let w = v.subrange(0, r.0) + seq![g] + v.subrange(r.1, v.len() as int);
            assert forall|i: int| 0 <= i < w.len() implies once_or_long_enough(#[trigger] w[i], config) by {
                if i < r.0 {
                    assert(w[i] == v[i]);
                } else if i == r.0 {
                    assert(w[i] == g);
                } else {
                    assert(w[i] == v[r.1 + (i - r.0 - 1)]);
                }
            }
            lemma_splice_ranges_long_enough(w, rs.drop_first(), config, n);
            assert(splice_ranges(v, rs, config) == splice_ranges(w, rs.drop_first(), config));
        }
    } else {
        assert(splice_ranges(v, rs, config) == v);
    }
}

/// Each repeated grapheme that the conversion of repetitions makes holds at least
/// `minimum_substring_length` graphemes and stands more than `minimum_repetitions`
/// times: where each grapheme of the input stands once, every grapheme of the
/// result that stands more than once is made of at least that many graphemes and
/// repeats more often than that.
pub proof fn lemma_repetitions_respect_minimum_substring_length(
    gs: Seq<GraphemeModel>,
    config: RegExpConfig,
)
    requires
        forall|i: int| 0 <= i < gs.len() ==> (#[trigger] gs[i]).min == 1,
    ensures
        forall|j: int|
            0 <= j < repetitions_of(gs, config).len() && (#[trigger] repetitions_of(gs, config)[j]).min
                > 1 ==> repetitions_of(gs, config)[j].chars.len() >= config.minimum_substring_length
                && repetitions_of(gs, config)[j].min > config.minimum_repetitions,
{
    let prior = Seq::<GraphemeModel>::empty();
    assert(prior + gs =~= gs);
    let cs = coalesced_ranges(gs, config);
    if cs.len() > 0 {
        lemma_coalesced_ranges_ok(gs, config);
        lemma_ranges_above_repeat(values(gs), 0, config.minimum_repetitions);
        lemma_sort_ranges_repeat(
            ranges_above(values(gs), 0, config.minimum_repetitions),
            config.minimum_repetitions,
        );
        lemma_coalesce_ranges_repeat(
            sort_ranges(ranges_above(values(gs), 0, config.minimum_repetitions)),
            config.minimum_repetitions,
        );
        lemma_splice_ranges_long_enough(prior + gs, cs, config, gs.len() as int);
        let v = splice_ranges(prior + gs, cs, config);
        let out = repetitions_of(gs, config);
        assert(out.len() == v.len());
        assert forall|j: int| 0 <= j < out.len() && (#[trigger] out[j]).min > 1 implies out[j].chars.len()
            >= config.minimum_substring_length && out[j].min > config.minimum_repetitions by {
            assert(once_or_long_enough(v[j], config));
            assert(out[j].min == v[j].min && out[j].chars == v[j].chars);
        }
    }
}

} // verus!
