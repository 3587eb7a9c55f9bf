//! The text of a character class: its characters in brackets, runs of three or
//! more consecutive characters written as ranges.
use crate::char_range::scalar_rank;
use crate::component::Component;
use crate::text::{from_chars, push_str};
use vstd::prelude::*;

verus! {

broadcast use vstd::seq::group_seq_axioms, vstd::seq_lib::group_seq_properties;

/// A character of a class, escaped where it has a meaning inside brackets.
pub open spec fn class_char_text(c: char) -> Seq<char> {
    if c == '[' || c == ']' || c == '\\' || c == '-' || c == '^' || c == '$' {
        seq!['\\', c]
    } else if c == '\n' {
        seq!['\\', 'n']
    } else if c == '\r' {
        seq!['\\', 'r']
    } else if c == '\t' {
        seq!['\\', 't']
    } else {
        seq![c]
    }
}

/// The runs of characters of a class after the first `k` pairs of neighbours: the
/// runs finished so far and the run being read. Neighbours whose positions among all
/// scalar values follow each other are in one run.
pub open spec fn class_runs_state(cs: Seq<char>, k: int) -> (Seq<Seq<char>>, Seq<char>)
    decreases k,
{
    if k <= 0 {
        (Seq::empty(), Seq::empty())
    } else {
        let prev = class_runs_state(cs, k - 1);
        let first = cs[k - 1];
        let second = cs[k];
        let run = if prev.1.len() == 0 {
            seq![first]
        } else {
            prev.1
        };
        if scalar_rank(second as int) == scalar_rank(first as int) + 1 {
            (prev.0, run.push(second))
        } else {
            (prev.0.push(run), seq![second])
        }
    }
}

/// The runs of a class; a class of fewer than two characters gives one empty run.
pub open spec fn class_runs(cs: Seq<char>) -> Seq<Seq<char>> {
    let k = if cs.len() >= 1 {
        cs.len() - 1
    } else {
        0
    };
    let st = class_runs_state(cs, k as int);
    st.0.push(st.1)
}

/// The text of one run: its characters, or the first and the last with a hyphen
/// between them where there are more than two.
pub open spec fn run_text(run: Seq<char>, hyphen: Seq<char>) -> Seq<char> {
    if run.len() <= 2 {
        chars_text(run)
    } else {
        class_char_text(run[0]) + hyphen + class_char_text(run.last())
    }
}

/// Escaped characters, one after the other.
pub open spec fn chars_text(run: Seq<char>) -> Seq<char>
    decreases run.len(),
{
    if run.len() == 0 {
        Seq::empty()
    } else {
        chars_text(run.drop_last()) + class_char_text(run.last())
    }
}

/// The texts of runs, one after the other.
pub open spec fn runs_text(runs: Seq<Seq<char>>, hyphen: Seq<char>) -> Seq<char>
    decreases runs.len(),
{
    if runs.len() == 0 {
        Seq::empty()
    } else {
        runs_text(runs.drop_last(), hyphen) + run_text(runs.last(), hyphen)
    }
}

/// The text of a character class of the given characters, in increasing order.
pub open spec fn character_class_text(cs: Seq<char>, is_output_colorized: bool) -> Seq<char> {
    Component::LeftBracket.repr(is_output_colorized) + runs_text(
        class_runs(cs),
        Component::Hyphen.repr(is_output_colorized),
    ) + Component::RightBracket.repr(is_output_colorized)
}

/// The position of a character among all Unicode scalar values.
pub fn get_codepoint_position(c: char) -> (p: usize)
    ensures
        p == scalar_rank(c as int),
        p < 0x110000,
{
    let n = c as u32;
    if n <= 0xD800 {
        n as usize
    } else {
        (n - 0x800) as usize
    }
}

/// Appends an escaped character of a class.
fn push_class_char(out: &mut Vec<char>, c: char)
    ensures
        final(out)@ == old(out)@ + class_char_text(c),
{
    if c == '[' || c == ']' || c == '\\' || c == '-' || c == '^' || c == '$' {
        out.push('\\');
        out.push(c);
    } else if c == '\n' {
        out.push('\\');
        out.push('n');
    } else if c == '\r' {
        out.push('\\');
        out.push('r');
    } else if c == '\t' {
        out.push('\\');
        out.push('t');
    } else {
        out.push(c);
    }
    assert(final(out)@ =~= old(out)@ + class_char_text(c));
}

/// Appends the text of a run.
fn push_run(out: &mut Vec<char>, run: &Vec<char>, hyphen: &str)
    ensures
        final(out)@ == old(out)@ + run_text(run@, hyphen@),
{
    if run.len() <= 2 {
        let mut i: usize = 0;
        while i < run.len()
            invariant
                i <= run@.len(),
                out@ == old(out)@ + chars_text(run@.take(i as int)),
            decreases run.len() - i,
        {
            proof {
                assert(run@.take(i + 1).drop_last() =~= run@.take(i as int));
            }
            push_class_char(out, run[i]);
            i = i + 1;
        }
        proof {
            assert(run@.take(i as int) =~= run@);
        }
    } else {
        push_class_char(out, run[0]);
        push_str(out, hyphen);
        push_class_char(out, run[run.len() - 1]);
        assert(final(out)@ =~= old(out)@ + run_text(run@, hyphen@));
    }
}

/// The text of a character class of the given characters, in increasing order:
/// runs of consecutive characters written as ranges, the brackets and hyphens
/// highlighted where asked.
pub fn format_character_class(char_set: &[char], is_output_colorized: bool) -> (s: String)
    ensures
        s@ == character_class_text(char_set@, is_output_colorized),
{
    let ghost cs = char_set@;
    let mut subsets: Vec<Vec<char>> = Vec::new();
    let mut subset: Vec<char> = Vec::new();
    let k = if char_set.len() >= 1 {
        char_set.len() - 1
    } else {
        0
    };
    let mut i: usize = 0;
    while i < k
        invariant
            i <= k,
            k == (if cs.len() >= 1 {
                cs.len() - 1
            } else {
                0
            }),
            cs == char_set@,
            (subsets@.map_values(|r: Vec<char>| r@), subset@) == class_runs_state(cs, i as int),
        decreases k - i,
    {
        let first = char_set[i];
        let second = char_set[i + 1];
        let ghost prev = subsets@;
        if subset.len() == 0 {
            subset.push(first);
        }
        if get_codepoint_position(second) == get_codepoint_position(first) + 1 {
            subset.push(second);
        } else {
            subsets.push(subset);
            proof {
                assert(subsets@.map_values(|r: Vec<char>| r@) =~= prev.map_values(|r: Vec<char>| r@).push(
                    subset@,
                ));
            }
            subset = vec![second];
        }
        i = i + 1;
    }
    let ghost prev = subsets@;
    subsets.push(subset);
    proof {
        assert(subsets@.map_values(|r: Vec<char>| r@) =~= prev.map_values(|r: Vec<char>| r@).push(
            subset@,
        ));
    }
    let hyphen = Component::Hyphen.to_repr(is_output_colorized);
    let mut out: Vec<char> = Vec::new();
    push_str(&mut out, Component::LeftBracket.to_repr(is_output_colorized).as_str());
    let ghost runs = subsets@.map_values(|r: Vec<char>| r@);
    let ghost base = out@;
    let mut q: usize = 0;
    while q < subsets.len()
        invariant
            q <= subsets@.len(),
            runs == subsets@.map_values(|r: Vec<char>| r@),
            out@ == base + runs_text(runs.take(q as int), hyphen@),
        decreases subsets.len() - q,
    {
        proof {
            assert(runs.take(q + 1).drop_last() =~= runs.take(q as int));
            assert(runs.take(q + 1).last() == subsets@[q as int]@);
        }
        push_run(&mut out, &subsets[q], hyphen.as_str());
        q = q + 1;
    }
    proof {
        assert(runs.take(q as int) =~= runs);
    }
    push_str(&mut out, Component::RightBracket.to_repr(is_output_colorized).as_str());
    assert(out@ =~= character_class_text(char_set@, is_output_colorized));
    from_chars(out.as_slice())
}

/// A character that a character class does not take literally where it stands
/// unescaped between the brackets: `[ ] \ - ^ $`.
pub open spec fn reserved_in_class(c: char) -> bool {
    ||| c == '$'
    ||| c == '^'
    ||| c == '-'
    ||| c == '\\'
    ||| c == ']'
    ||| c == '['
}

/// The one character that the text of a single item of a character class stands
/// for: a character that is not reserved, a reserved character behind a backslash,
/// or `\n`, `\r`, `\t`; `None` for any other text.
pub open spec fn read_class_item(t: Seq<char>) -> Option<char> {
    if t.len() == 1 && !reserved_in_class(t[0]) {
        Some(t[0])
    } else if t.len() == 2 && t[0] == '\\' {
        if reserved_in_class(t[1]) {
            Some(t[1])
        } else if t[1] == 'n' {
            Some('\n')
        } else if t[1] == 'r' {
            Some('\r')
        } else if t[1] == 't' {
            Some('\t')
        } else {
            None
        }
    } else {
        None
    }
}

/// Each character of a class is written so that, read back as an item of a
/// character class, it stands for that same character; each of `[ ] \ - ^ $` is
/// written behind a backslash.
pub proof fn lemma_class_char_reads_back(c: char)
    ensures
        read_class_item(class_char_text(c)) == Some(c),
        reserved_in_class(c) ==> class_char_text(c) == seq!['\\', c],
{
    let t = class_char_text(c);
    if reserved_in_class(c) {
        assert(t == seq!['\\', c]);
        assert(t[0] == '\\' && t[1] == c && t.len() == 2);
    } else if c == '\n' || c == '\r' || c == '\t' {
        assert(t.len() == 2 && t[0] == '\\');
        assert(!reserved_in_class(t[1]));
    } else {
        assert(t == seq![c]);
        assert(t.len() == 1 && t[0] == c);
    }
}

/// The length of the text of the class item at the start of `t`: 1 for a character
/// that is not reserved, 2 for a backslash escape that `read_class_item` reads, 0
/// where no item starts.
pub open spec fn class_item_len(t: Seq<char>) -> int {
    if t.len() >= 1 && !reserved_in_class(t[0]) {
        1
    } else if t.len() >= 2 && t[0] == '\\' && read_class_item(t.take(2)) is Some {
        2
    } else {
        0
    }
}

/// The character that the class item at the start of `t` stands for.
pub open spec fn class_item_char(t: Seq<char>) -> char {
    read_class_item(t.take(class_item_len(t)))->0
}

/// The characters from `a` to `b`, by code point.
pub open spec fn chars_between(a: char, b: char) -> Set<char> {
    Set::new(|c: char| a as int <= c as int && c as int <= b as int)
}

/// `s` joined to what was read, if anything was.
pub open spec fn joined(s: Set<char>, o: Option<Set<char>>) -> Option<Set<char>> {
    match o {
        Some(r) => Some(s.union(r)),
        None => None,
    }
}

/// The characters that the text between the brackets of a character class stands
/// for: items one after the other, two items with a hyphen between them standing for
/// the characters from the first to the second; `None` where the text is no such
/// sequence, or a range runs backwards.
pub open spec fn read_class_body(t: Seq<char>) -> Option<Set<char>>
    decreases t.len(),
{
    if t.len() == 0 {
        Some(Set::empty())
    } else if class_item_len(t) == 0 {
        None
    } else {
        let a = class_item_char(t);
        let rest = t.skip(class_item_len(t));
        if rest.len() >= 1 && rest[0] == '-' {
            let u = rest.skip(1);
            if class_item_len(u) == 0 {
                None
            } else {
                let b = class_item_char(u);
                if a as int <= b as int {
                    joined(chars_between(a, b), read_class_body(u.skip(class_item_len(u))))
                } else {
                    None
                }
            }
        } else {
            joined(set![a], read_class_body(rest))
        }
    }
}

/// The characters that the text of a character class stands for: `[`, the items,
/// `]`.
pub open spec fn read_char_class(t: Seq<char>) -> Option<Set<char>> {
    if t.len() >= 2 && t[0] == '[' && t.last() == ']' {
        read_class_body(t.subrange(1, t.len() - 1))
    } else {
        None
    }
}

/// Characters whose positions among the scalar values follow each other.
pub open spec fn consecutive(run: Seq<char>) -> bool {
    forall|j: int|
        0 <= j < run.len() ==> scalar_rank(#[trigger] run[j] as int) == scalar_rank(run[0] as int) + j
}

/// A text that does not start with a hyphen.
pub open spec fn no_leading_hyphen(t: Seq<char>) -> bool {
    t.len() == 0 || t[0] != '-'
}

proof fn lemma_class_item_of_text(c: char, t: Seq<char>)
    ensures
        class_item_len(class_char_text(c) + t) == class_char_text(c).len(),
        class_item_char(class_char_text(c) + t) == c,
        (class_char_text(c) + t).skip(class_char_text(c).len() as int) == t,
        (class_char_text(c) + t)[0] != '-',
{
    lemma_class_char_reads_back(c);
    let x = class_char_text(c);
    let u = x + t;
    assert(u.take(x.len() as int) =~= x);
    assert(u.skip(x.len() as int) =~= t);
    if x.len() == 1 {
        assert(u[0] == x[0]);
    } else {
        assert(x.len() == 2 && x[0] == '\\');
        assert(u[0] == '\\' && u.take(2) =~= x);
    }
}

proof fn lemma_read_chars_text(run: Seq<char>, t: Seq<char>)
    requires
        no_leading_hyphen(t),
    ensures
        read_class_body(chars_text(run) + t) == joined(run.to_set(), read_class_body(t)),
        no_leading_hyphen(chars_text(run) + t),
    decreases run.len(),
{
    if run.len() == 0 {
        assert(chars_text(run) + t =~= t);
        assert(run.to_set() =~= Set::<char>::empty());
        match read_class_body(t) {
            Some(r) => {
                assert(run.to_set().union(r) =~= r);
            },
            None => {},
        }
    } else {
        let init = run.drop_last();
        let last = run.last();
        let x = class_char_text(last);
        lemma_class_item_of_text(last, t);
        let t2 = x + t;
        assert(read_class_body(t2) == joined(set![last], read_class_body(t)));
        lemma_read_chars_text(init, t2);
        assert(chars_text(run) + t =~= chars_text(init) + t2);
        assert(init.push(last) =~= run);
        init.lemma_push_to_set_commute(last);
        match read_class_body(t) {
            Some(r) => {
                assert(init.to_set().union(set![last].union(r)) =~= run.to_set().union(r));
            },
            None => {},
        }
        if chars_text(init).len() == 0 {
            assert(chars_text(init) + t2 =~= t2);
        } else {
            assert((chars_text(init) + t2)[0] == chars_text(init)[0]);
        }
    }
}

proof fn lemma_rank_order(a: char, b: char)
    ensures
        (a as int <= b as int) <==> scalar_rank(a as int) <= scalar_rank(b as int),
        (a as int == b as int) <==> scalar_rank(a as int) == scalar_rank(b as int),
{
}

proof fn lemma_consecutive_chars_between(run: Seq<char>)
    requires
        run.len() >= 1,
        consecutive(run),
    ensures
        chars_between(run[0], run.last()) == run.to_set(),
{
    let first = run[0];
    let last = run.last();
    assert(scalar_rank(run[run.len() - 1] as int) == scalar_rank(first as int) + run.len() - 1);
    assert forall|c: char| chars_between(first, last).contains(c) <==> run.to_set().contains(c) by {
        if chars_between(first, last).contains(c) {
            lemma_rank_order(first, c);
            lemma_rank_order(c, last);
            let j = scalar_rank(c as int) - scalar_rank(first as int);
            assert(0 <= j < run.len());
            assert(scalar_rank(run[j] as int) == scalar_rank(c as int));
            lemma_rank_order(run[j], c);
            assert(run[j] == c);
            assert(run.contains(c));
        }
        if run.to_set().contains(c) {
            let j = choose|j: int| 0 <= j < run.len() && run[j] == c;
            assert(scalar_rank(run[j] as int) == scalar_rank(first as int) + j);
            lemma_rank_order(first, c);
            lemma_rank_order(c, last);
        }
    }
    assert(chars_between(first, last) =~= run.to_set());
}

/// A run that is written item by item, or one of consecutive characters.
pub open spec fn writable_run(run: Seq<char>) -> bool {
    run.len() <= 2 || consecutive(run)
}

proof fn lemma_read_run_text(run: Seq<char>, t: Seq<char>)
    requires
        no_leading_hyphen(t),
        writable_run(run),
    ensures
        read_class_body(run_text(run, seq!['-']) + t) == joined(run.to_set(), read_class_body(t)),
        no_leading_hyphen(run_text(run, seq!['-']) + t),
{
    if run.len() <= 2 {
        lemma_read_chars_text(run, t);
    } else {
        let first = run[0];
        let last = run.last();
        let xf = class_char_text(first);
        let xl = class_char_text(last);
        let u = xl + t;
        lemma_class_item_of_text(last, t);
        let whole = xf + (seq!['-'] + u);
        assert(run_text(run, seq!['-']) + t =~= whole);
        lemma_class_item_of_text(first, seq!['-'] + u);
        let rest = whole.skip(xf.len() as int);
        assert(rest == seq!['-'] + u);
        assert(rest[0] == '-');
        assert(rest.skip(1) =~= u);
        assert(scalar_rank(run[run.len() - 1] as int) == scalar_rank(first as int) + run.len() - 1);
        lemma_rank_order(first, last);
        lemma_consecutive_chars_between(run);
        assert(read_class_body(whole) == joined(chars_between(first, last), read_class_body(t)));
    }
}

proof fn lemma_read_runs_text(runs: Seq<Seq<char>>, t: Seq<char>)
    requires
        no_leading_hyphen(t),
        forall|i: int| 0 <= i < runs.len() ==> writable_run(#[trigger] runs[i]),
    ensures
        read_class_body(runs_text(runs, seq!['-']) + t) == joined(
            runs.flatten().to_set(),
            read_class_body(t),
        ),
    decreases runs.len(),
{
    if runs.len() == 0 {
        assert(runs_text(runs, seq!['-']) + t =~= t);
        assert(runs.flatten().to_set() =~= Set::<char>::empty());
        match read_class_body(t) {
            Some(r) => {
                assert(Set::<char>::empty().union(r) =~= r);
            },
            None => {},
        }
    } else {
        let init = runs.drop_last();
        let last = runs.last();
        assert(writable_run(runs[runs.len() - 1]));
        lemma_read_run_text(last, t);
        let t2 = run_text(last, seq!['-']) + t;
        assert(runs_text(runs, seq!['-']) + t =~= runs_text(init, seq!['-']) + t2);
        lemma_read_runs_text(init, t2);
        assert(init.push(last) =~= runs);
        init.lemma_flatten_push(last);
        assert(runs.flatten().to_set() =~= init.flatten().to_set().union(last.to_set()));
        match read_class_body(t) {
            Some(r) => {
                assert(init.flatten().to_set().union(last.to_set().union(r)) =~= runs.flatten().to_set().union(r));
            },
            None => {},
        }
    }
}

proof fn lemma_class_runs_state(cs: Seq<char>, k: int)
    requires
        1 <= k < cs.len(),
    ensures
        class_runs_state(cs, k).1.len() >= 1,
        consecutive(class_runs_state(cs, k).1),
        forall|i: int|
            0 <= i < class_runs_state(cs, k).0.len() ==> (#[trigger] class_runs_state(cs, k).0[i]).len()
                >= 1 && consecutive(class_runs_state(cs, k).0[i]),
        class_runs_state(cs, k).0.flatten() + class_runs_state(cs, k).1 == cs.take(k + 1),
    decreases k,
{
    let prev = class_runs_state(cs, k - 1);
    let first = cs[k - 1];
    let second = cs[k];
    let run = if prev.1.len() == 0 {
        seq![first]
    } else {
        prev.1
    };
    if k == 1 {
        assert(prev.0.len() == 0 && prev.1.len() == 0);
        assert(prev.0.flatten() =~= Seq::<char>::empty());
        assert(prev.0.flatten() + run =~= cs.take(k));
    } else {
        lemma_class_runs_state(cs, k - 1);
    }
    assert(prev.0.flatten() + run =~= cs.take(k));
    assert(run.len() >= 1 && consecutive(run));
    assert(run.last() == first) by {
        assert((prev.0.flatten() + run)[k - 1] == cs.take(k)[k - 1]);
    }
    let st = class_runs_state(cs, k);
    if scalar_rank(second as int) == scalar_rank(first as int) + 1 {
        assert(st.1 == run.push(second));
        assert(scalar_rank(run[run.len() - 1] as int) == scalar_rank(run[0] as int) + run.len() - 1);
        assert forall|j: int| 0 <= j < st.1.len() implies scalar_rank(#[trigger] st.1[j] as int)
            == scalar_rank(st.1[0] as int) + j by {
            if j < run.len() {
                assert(st.1[j] == run[j]);
            }
        }
        assert(st.0.flatten() + st.1 =~= cs.take(k + 1));
    } else {
        assert(st.0 == prev.0.push(run));
        assert(st.1 == seq![second]);
        prev.0.lemma_flatten_push(run);
        assert forall|i: int| 0 <= i < st.0.len() implies (#[trigger] st.0[i]).len() >= 1 && consecutive(
            st.0[i],
        ) by {
            if i < prev.0.len() {
                assert(st.0[i] == prev.0[i]);
            }
        }
        assert(st.0.flatten() + st.1 =~= cs.take(k + 1));
    }
}

/// The text of a character class, read back, stands for exactly the given
/// characters: each is written as an item that `read_class_item` reads back, a
/// hyphen only between the ends of a run of consecutive characters (uncolored
/// output; a class of one character is written `[]` and is left out).
pub proof fn lemma_character_class_reads_back(cs: Seq<char>)
    requires
        cs.len() != 1,
    ensures
        read_char_class(character_class_text(cs, false)) == Some(cs.to_set()),
{
    let hyphen = Component::Hyphen.repr(false);
    assert(hyphen == seq!['-']);
    let runs = class_runs(cs);
    if cs.len() == 0 {
        assert(runs == seq![Seq::<char>::empty()]);
        assert(runs.flatten() =~= Seq::<char>::empty()) by {
            runs.lemma_flatten_one_element();
        }
        assert(writable_run(runs[0]));
    } else {
        let k = cs.len() - 1;
        lemma_class_runs_state(cs, k);
        let st = class_runs_state(cs, k);
        assert(runs == st.0.push(st.1));
        st.0.lemma_flatten_push(st.1);
        assert(cs.take(k + 1) =~= cs);
        assert forall|i: int| 0 <= i < runs.len() implies writable_run(#[trigger] runs[i]) by {
            if i < st.0.len() {
                assert(runs[i] == st.0[i]);
            }
        }
    }
    assert(forall|i: int| 0 <= i < runs.len() ==> writable_run(#[trigger] runs[i]));
    lemma_read_runs_text(runs, Seq::empty());
    let body = runs_text(runs, seq!['-']);
    assert(body + Seq::<char>::empty() =~= body);
    assert(runs.flatten().to_set().union(Set::<char>::empty()) =~= cs.to_set());
    let text = character_class_text(cs, false);
    assert(text =~= seq!['['] + body + seq![']']);
    assert(text.subrange(1, text.len() - 1) =~= body);
}

} // verus!
