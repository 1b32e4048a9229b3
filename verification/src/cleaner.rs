//! The text cleaner: substitutes disallowed characters, counts them, and
//! collapses runs of spaces.

use vstd::prelude::*;
use crate::counters::{bounded, sat_add, CounterStore};
use crate::rules::RuleTable;

verus! {

/// What a single character becomes: its replacement where it is disallowed,
/// itself otherwise.
pub open spec fn subst_char(t: RuleTable, c: char) -> char {
    if t.disallowed(c) {
        t.replacement_of(c)
    } else {
        c
    }
}

/// The substitution pass: every character replaced by what it becomes.
pub open spec fn subst(t: RuleTable, s: Seq<char>) -> Seq<char> {
    s.map_values(|c: char| subst_char(t, c))
}

/// How many times `c` occurs in `s`.
pub open spec fn occurrences(s: Seq<char>, c: char) -> nat
    decreases s.len(),
{
    if s.len() == 0 {
        0
    } else {
        (if s[0] == c {
            1nat
        } else {
            0nat
        }) + occurrences(s.drop_first(), c)
    }
}

/// How many characters of `s` the substitution pass turns into `m`: the
/// disallowed ones whose replacement is `m`, and, where `m` itself is not
/// disallowed, the occurrences of `m` that pass through unchanged.
pub open spec fn subst_sources(t: RuleTable, s: Seq<char>, m: char) -> nat
    decreases s.len(),
{
    if s.len() == 0 {
        0
    } else {
        (if subst_char(t, s[0]) == m {
            1nat
        } else {
            0nat
        }) + subst_sources(t, s.drop_first(), m)
    }
}

/// The collapsing pass: every maximal run of two or more spaces becomes one
/// space; everything else is kept.
pub open spec fn collapse_spaces(s: Seq<char>) -> Seq<char>
    decreases s.len(),
{
    if s.len() == 0 {
        Seq::empty()
    } else if s.len() >= 2 && s[0] == ' ' && s[1] == ' ' {
        collapse_spaces(s.drop_first())
    } else {
        seq![s[0]] + collapse_spaces(s.drop_first())
    }
}

/// The whole cleaning pass: substitution, then space collapsing.
pub open spec fn clean_spec(t: RuleTable, s: Seq<char>) -> Seq<char> {
    collapse_spaces(subst(t, s))
}

/// Whether a maximal run of two or more spaces starts at `i`.
pub open spec fn space_run_start(s: Seq<char>, i: int) -> bool {
    0 <= i && i + 1 < s.len() && s[i] == ' ' && s[i + 1] == ' ' && (i == 0 || s[i - 1] != ' ')
}

/// How many maximal runs of two or more spaces start before position `n`.
pub open spec fn space_runs_upto(s: Seq<char>, n: int) -> nat
    decreases n,
{
    if n <= 0 {
        0
    } else {
        space_runs_upto(s, n - 1) + (if space_run_start(s, n - 1) {
            1nat
        } else {
            0nat
        })
    }
}

/// How many maximal runs of two or more spaces `s` holds.
pub open spec fn space_runs(s: Seq<char>) -> nat {
    space_runs_upto(s, s.len() as int)
}

proof fn lemma_space_runs_upto_bound(s: Seq<char>, n: int)
    requires
        n >= 0,
    ensures
        space_runs_upto(s, n) <= n,
    decreases n,
{
    if n > 0 {
        lemma_space_runs_upto_bound(s, n - 1);
    }
}

/// Appending one character adds its occurrences.
proof fn lemma_occ_push(s: Seq<char>, x: char, c: char)
    ensures
        occurrences(s.push(x), c) == occurrences(s, c) + (if x == c {
            1nat
        } else {
            0nat
        }),
    decreases s.len(),
{
    if s.len() == 0 {
        assert(s.push(x).drop_first() =~= Seq::<char>::empty());
        assert(occurrences(Seq::<char>::empty(), c) == 0);
        assert(occurrences(s, c) == 0);
        assert(s.push(x)[0] == x);
    } else {
        assert(s.push(x).drop_first() =~= s.drop_first().push(x));
        assert(s.push(x)[0] == s[0]);
        lemma_occ_push(s.drop_first(), x, c);
    }
}

/// The substitution pass turns exactly the `subst_sources` characters into
/// `m`.
proof fn lemma_subst_occurrences(t: RuleTable, s: Seq<char>, m: char)
    ensures
        occurrences(subst(t, s), m) == subst_sources(t, s, m),
    decreases s.len(),
{
    if s.len() == 0 {
        assert(subst(t, s) =~= Seq::<char>::empty());
    } else {
        assert(subst(t, s).drop_first() =~= subst(t, s.drop_first()));
        lemma_subst_occurrences(t, s.drop_first(), m);
    }
}

/// Collapsing keeps the first character and never lengthens the text.
proof fn lemma_collapse_head(s: Seq<char>)
    requires
        s.len() > 0,
    ensures
        collapse_spaces(s).len() > 0,
        collapse_spaces(s)[0] == s[0],
        collapse_spaces(s).len() <= s.len(),
    decreases s.len(),
{
    if s.len() == 1 {
        assert(s.drop_first() =~= Seq::<char>::empty());
        assert(collapse_spaces(Seq::<char>::empty()) =~= Seq::<char>::empty());
    } else {
        lemma_collapse_head(s.drop_first());
    }
}

/// Collapsed text has no two spaces side by side.
proof fn lemma_collapse_no_double(s: Seq<char>)
    ensures
        forall|i: int|
            0 <= i && i + 1 < collapse_spaces(s).len() ==> !((#[trigger] collapse_spaces(s)[i])
                == ' ' && collapse_spaces(s)[i + 1] == ' '),
    decreases s.len(),
{
    if s.len() == 0 {
    } else if s.len() == 1 {
        lemma_collapse_head(s);
        assert(collapse_spaces(s).len() == 1);
    } else if s[0] == ' ' && s[1] == ' ' {
        lemma_collapse_no_double(s.drop_first());
        assert(collapse_spaces(s) == collapse_spaces(s.drop_first()));
        assert forall|i: int| 0 <= i && i + 1 < collapse_spaces(s).len() implies !((
        #[trigger] collapse_spaces(s)[i]) == ' ' && collapse_spaces(s)[i + 1] == ' ') by {
            assert(!(collapse_spaces(s.drop_first())[i] == ' ' && collapse_spaces(s.drop_first())[i
                + 1] == ' '));
        }
    } else {
        lemma_collapse_no_double(s.drop_first());
        lemma_collapse_head(s.drop_first());
        let r = collapse_spaces(s);
        let rest = collapse_spaces(s.drop_first());
        assert forall|i: int| 0 <= i && i + 1 < r.len() implies !((#[trigger] r[i]) == ' ' && r[i
            + 1] == ' ') by {
            if i == 0 {
                assert(r[0] == s[0] && r[1] == rest[0] && rest[0] == s[1]);
                assert(!(s[0] == ' ' && s[1] == ' '));
            } else {
                assert(r[i] == rest[i - 1] && r[i + 1] == rest[i]);
                assert(!(rest[i - 1] == ' ' && rest[i] == ' '));
            }
        }
    }
}

/// Every character of the collapsed text occurs in the original.
proof fn lemma_collapse_contains(s: Seq<char>)
    ensures
        forall|i: int|
            0 <= i < collapse_spaces(s).len() ==> s.contains(#[trigger] collapse_spaces(s)[i]),
    decreases s.len(),
{
    if s.len() == 0 {
    } else {
        lemma_collapse_contains(s.drop_first());
        let r = collapse_spaces(s);
        let rest = collapse_spaces(s.drop_first());
        assert forall|i: int| 0 <= i < r.len() implies s.contains(#[trigger] r[i]) by {
            if s.len() >= 2 && s[0] == ' ' && s[1] == ' ' {
                let j = choose|j: int| 0 <= j < s.drop_first().len() && s.drop_first()[j] == r[i];
                assert(s[j + 1] == r[i]);
            } else {
                if i == 0 {
                    assert(s[0] == r[0]);
                } else {
                    let j = choose|j: int|
                        0 <= j < s.drop_first().len() && s.drop_first()[j] == rest[i - 1];
                    assert(s[j + 1] == r[i]);
                }
            }
        }
    }
}

/// Collapsing keeps the count of every character but the space.
proof fn lemma_collapse_occurrences(s: Seq<char>, c: char)
    requires
        c != ' ',
    ensures
        occurrences(collapse_spaces(s), c) == occurrences(s, c),
    decreases s.len(),
{
    if s.len() == 0 {
    } else if s.len() >= 2 && s[0] == ' ' && s[1] == ' ' {
        lemma_collapse_occurrences(s.drop_first(), c);
    } else {
        lemma_collapse_occurrences(s.drop_first(), c);
        assert((seq![s[0]] + collapse_spaces(s.drop_first())).drop_first() =~= collapse_spaces(
            s.drop_first(),
        ));
    }
}

/// Text without two spaces side by side collapses to itself.
proof fn lemma_collapse_identity(s: Seq<char>)
    requires
        forall|i: int| 0 <= i && i + 1 < s.len() ==> !((#[trigger] s[i]) == ' ' && s[i + 1] == ' '),
    ensures
        collapse_spaces(s) == s,
    decreases s.len(),
{
    if s.len() == 0 {
        assert(collapse_spaces(s) =~= s);
    } else {
        assert(!(s.len() >= 2 && s[0] == ' ' && s[1] == ' '));
        assert(forall|i: int|
            0 <= i && i + 1 < s.drop_first().len() ==> !((#[trigger] s.drop_first()[i]) == ' '
                && s.drop_first()[i + 1] == ' '));
        lemma_collapse_identity(s.drop_first());
        assert(seq![s[0]] + s.drop_first() =~= s);
    }
}

/// Text free of disallowed characters passes through substitution unchanged.
proof fn lemma_subst_identity(t: RuleTable, s: Seq<char>)
    requires
        forall|i: int| 0 <= i < s.len() ==> !t.disallowed(#[trigger] s[i]),
    ensures
        subst(t, s) == s,
{
    assert(subst(t, s) =~= s);
}

/// Cleaned text holds no disallowed character, provided no rule replaces a
/// disallowed character with a disallowed one.
pub proof fn lemma_clean_no_disallowed(t: RuleTable, s: Seq<char>)
    requires
        forall|c: char| #[trigger] t.disallowed(c) ==> !t.disallowed(t.replacement_of(c)),
    ensures
        forall|i: int|
            0 <= i < clean_spec(t, s).len() ==> !t.disallowed(#[trigger] clean_spec(t, s)[i]),
{
    let sub = subst(t, s);
    assert(forall|i: int| 0 <= i < sub.len() ==> !t.disallowed(#[trigger] sub[i]));
    lemma_collapse_contains(sub);
    assert forall|i: int| 0 <= i < clean_spec(t, s).len() implies !t.disallowed(
        #[trigger] clean_spec(t, s)[i],
    ) by {
        let j = choose|j: int| 0 <= j < sub.len() && sub[j] == clean_spec(t, s)[i];
    }
}

/// Cleaned text holds the fallback marker exactly as often as the cleaning
/// pass produced it: once per disallowed character whose rule replaces it
/// with the marker, plus, where the marker itself is not disallowed, once per
/// marker already present.
pub proof fn lemma_clean_marker_count(t: RuleTable, s: Seq<char>)
    ensures
        occurrences(clean_spec(t, s), crate::rules::FALLBACK_MARKER) == subst_sources(
            t,
            s,
            crate::rules::FALLBACK_MARKER,
        ),
{
    lemma_subst_occurrences(t, s, crate::rules::FALLBACK_MARKER);
    lemma_collapse_occurrences(subst(t, s), crate::rules::FALLBACK_MARKER);
}

/// Cleaned text has no run of two or more spaces.
pub proof fn lemma_clean_no_double_space(t: RuleTable, s: Seq<char>)
    ensures
        forall|i: int|
            0 <= i && i + 1 < clean_spec(t, s).len() ==> !((#[trigger] clean_spec(t, s)[i]) == ' '
                && clean_spec(t, s)[i + 1] == ' '),
{
    lemma_collapse_no_double(subst(t, s));
}

/// Cleaning is idempotent, provided no rule replaces a disallowed character
/// with a disallowed one.
pub proof fn lemma_clean_idempotent(t: RuleTable, s: Seq<char>)
    requires
        forall|c: char| #[trigger] t.disallowed(c) ==> !t.disallowed(t.replacement_of(c)),
    ensures
        clean_spec(t, clean_spec(t, s)) == clean_spec(t, s),
{
    let c1 = clean_spec(t, s);
    lemma_clean_no_disallowed(t, s);
    lemma_subst_identity(t, c1);
    lemma_clean_no_double_space(t, s);
    lemma_collapse_identity(c1);
}

/// The characters of a string, in order.
pub fn str_to_chars(s: &str) -> (r: Vec<char>)
    ensures
        r@ == s@,
{
    let n = s.unicode_len();
    let mut r: Vec<char> = Vec::new();
    for i in 0..n
        invariant
            n == s@.len(),
            r@ == s@.take(i as int),
    {
        r.push(s.get_char(i));
        proof {
            assert(s@.take(i + 1) =~= s@.take(i as int).push(s@[i as int]));
        }
    }
    proof {
        assert(s@.take(n as int) =~= s@);
    }
    r
}

/// Relies on String's FromIterator: collects the characters into the string
/// holding exactly them.
#[verifier::external_body]
pub(crate) fn chars_to_string(v: &Vec<char>) -> (r: String)
    ensures
        r@ == v@,
{
    v.iter().copied().collect()
}

/// The substitution pass over a fragment: each disallowed character becomes
/// its replacement and its counter grows by one (saturating); all other
/// characters pass through.
pub fn substitute(t: &RuleTable, counters: &mut CounterStore, input: &Vec<char>) -> (r: Vec<char>)
    requires
        t.wf(),
        bounded(old(counters)@),
        forall|c: char| #[trigger] t.disallowed(c) ==> old(counters)@.contains_key(c),
    ensures
        r@ == subst(*t, input@),
        bounded(final(counters)@),
        final(counters)@.dom() == old(counters)@.dom(),
        forall|c: char| #[trigger]
            t.disallowed(c) ==> final(counters)@[c] == sat_add(
                old(counters)@[c],
                occurrences(input@, c),
            ),
        forall|c: char|
            !t.disallowed(c) && old(counters)@.contains_key(c) ==> final(counters)@[c] == old(
                counters,
            )@[c],
{
    let n = input.len();
    let mut out: Vec<char> = Vec::new();
    for i in 0..n
        invariant
            n == input@.len(),
            t.wf(),
            out@ == subst(*t, input@.take(i as int)),
            bounded(old(counters)@),
            bounded(counters@),
            counters@.dom() == old(counters)@.dom(),
            forall|c: char| #[trigger] t.disallowed(c) ==> counters@.contains_key(c),
            forall|c: char| #[trigger]
                t.disallowed(c) ==> counters@[c] == sat_add(
                    old(counters)@[c],
                    occurrences(input@.take(i as int), c),
                ),
            forall|c: char|
                !t.disallowed(c) && old(counters)@.contains_key(c) ==> counters@[c] == old(
                    counters,
                )@[c],
    {
        let c = input[i];
        match t.replacement_for(c) {
            Some(rc) => {
                counters.increment(c);
                out.push(rc);
            },
            None => {
                out.push(c);
            },
        }
        proof {
            assert(input@.take(i + 1) =~= input@.take(i as int).push(input@[i as int]));
            assert(out@ =~= subst(*t, input@.take(i + 1)));
            assert forall|d: char| #[trigger] t.disallowed(d) implies counters@[d] == sat_add(
                old(counters)@[d],
                occurrences(input@.take(i + 1), d),
            ) by {
                lemma_occ_push(input@.take(i as int), input@[i as int], d);
            }
        }
    }
    proof {
        assert(input@.take(n as int) =~= input@);
    }
    out
}

/// The collapsing pass over a fragment.
pub fn collapse(input: &Vec<char>) -> (r: Vec<char>)
    ensures
        r@ == collapse_spaces(input@),
{
    let n = input.len();
    let mut out: Vec<char> = Vec::new();
    proof {
        assert(input@.skip(0) =~= input@);
        assert(Seq::<char>::empty() + collapse_spaces(input@) =~= collapse_spaces(input@));
    }
    for i in 0..n
        invariant
            n == input@.len(),
            collapse_spaces(input@) == out@ + collapse_spaces(input@.skip(i as int)),
    {
        let keep = if input[i] == ' ' && i + 1 < n {
            input[i + 1] != ' '
        } else {
            true
        };
        proof {
            let rest = input@.skip(i as int);
            assert(rest[0] == input@[i as int]);
            assert(rest.drop_first() =~= input@.skip(i + 1));
            if !keep {
                assert(rest[1] == input@[i + 1]);
                assert(collapse_spaces(rest) == collapse_spaces(input@.skip(i + 1)));
            } else {
                assert(!(rest.len() >= 2 && rest[0] == ' ' && rest[1] == ' '));
                assert(collapse_spaces(rest) == seq![rest[0]] + collapse_spaces(
                    input@.skip(i + 1),
                ));
            }
        }
        if keep {
            let ghost out_before = out@;
            out.push(input[i]);
            proof {
                assert(out@ + collapse_spaces(input@.skip(i + 1)) =~= out_before + (seq![
                    input@[i as int],
                ] + collapse_spaces(input@.skip(i + 1))));
            }
        }
    }
    proof {
        assert(input@.skip(n as int) =~= Seq::<char>::empty());
        assert(out@ =~= out@ + collapse_spaces(input@.skip(n as int)));
    }
    out
}

/// How many maximal runs of two or more spaces the fragment holds.
pub fn count_space_runs(input: &Vec<char>) -> (r: usize)
    ensures
        r as nat == space_runs(input@),
{
    let n = input.len();
    let mut count: usize = 0;
    for i in 0..n
        invariant
            n == input@.len(),
            count as nat == space_runs_upto(input@, i as int),
    {
        proof {
            lemma_space_runs_upto_bound(input@, i as int);
        }
        let starts = input[i] == ' ' && i + 1 < n && input[i + 1] == ' ' && (i == 0 || input[i
            - 1] != ' ');
        if starts {
            count = count + 1;
        }
    }
    count
}

/// The text cleaner: substitutes every disallowed character (counting it),
/// collapses runs of spaces, and reports how many runs it collapsed.
pub fn clean_text(t: &RuleTable, counters: &mut CounterStore, fragment: &str) -> (r: (
    String,
    usize,
))
    requires
        t.wf(),
        bounded(old(counters)@),
        forall|c: char| #[trigger] t.disallowed(c) ==> old(counters)@.contains_key(c),
    ensures
        r.0@ == clean_spec(*t, fragment@),
        bounded(final(counters)@),
        r.1 as nat == space_runs(subst(*t, fragment@)),
        final(counters)@.dom() == old(counters)@.dom(),
        forall|c: char| #[trigger]
            t.disallowed(c) ==> final(counters)@[c] == sat_add(
                old(counters)@[c],
                occurrences(fragment@, c),
            ),
        forall|c: char|
            !t.disallowed(c) && old(counters)@.contains_key(c) ==> final(counters)@[c] == old(
                counters,
            )@[c],
{
    let chars = str_to_chars(fragment);
    let substituted = substitute(t, counters, &chars);
    let runs = count_space_runs(&substituted);
    let collapsed = collapse(&substituted);
    (chars_to_string(&collapsed), runs)
}

} // verus!
