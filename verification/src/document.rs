//! The document walker: applies the text cleaner to every text fragment of a
//! document, in document order.

use vstd::prelude::*;
use crate::cleaner::{clean_spec, clean_text, occurrences};
use crate::counters::{bounded, sat_add, CounterStore};
use crate::rules::RuleTable;

verus! {

/// One paragraph: the text fragments of its runs, in document order.
pub struct Paragraph {
    pub runs: Vec<String>,
}

impl View for Paragraph {
    type V = Seq<Seq<char>>;

    open spec fn view(&self) -> Seq<Seq<char>> {
        self.runs.deep_view()
    }
}

/// A document: its paragraphs, in document order.
pub struct Document {
    pub paragraphs: Vec<Paragraph>,
}

impl View for Document {
    type V = Seq<Seq<Seq<char>>>;

    open spec fn view(&self) -> Seq<Seq<Seq<char>>> {
        Seq::new(self.paragraphs@.len(), |i: int| self.paragraphs@[i]@)
    }
}

/// How many times `c` occurs across a paragraph's fragments.
pub open spec fn para_occurrences(p: Seq<Seq<char>>, c: char) -> nat
    decreases p.len(),
{
    if p.len() == 0 {
        0
    } else {
        occurrences(p[0], c) + para_occurrences(p.drop_first(), c)
    }
}

/// How many times `c` occurs across a whole document's text.
pub open spec fn doc_occurrences(d: Seq<Seq<Seq<char>>>, c: char) -> nat
    decreases d.len(),
{
    if d.len() == 0 {
        0
    } else {
        para_occurrences(d[0], c) + doc_occurrences(d.drop_first(), c)
    }
}

proof fn lemma_para_occ_push(p: Seq<Seq<char>>, x: Seq<char>, c: char)
    ensures
        para_occurrences(p.push(x), c) == para_occurrences(p, c) + occurrences(x, c),
    decreases p.len(),
{
    if p.len() == 0 {
        assert(p.push(x).drop_first() =~= Seq::<Seq<char>>::empty());
        assert(para_occurrences(Seq::<Seq<char>>::empty(), c) == 0);
        assert(para_occurrences(p, c) == 0);
        assert(p.push(x)[0] == x);
    } else {
        assert(p.push(x).drop_first() =~= p.drop_first().push(x));
        assert(p.push(x)[0] == p[0]);
        lemma_para_occ_push(p.drop_first(), x, c);
    }
}

proof fn lemma_doc_occ_push(d: Seq<Seq<Seq<char>>>, x: Seq<Seq<char>>, c: char)
    ensures
        doc_occurrences(d.push(x), c) == doc_occurrences(d, c) + para_occurrences(x, c),
    decreases d.len(),
{
    if d.len() == 0 {
        assert(d.push(x).drop_first() =~= Seq::<Seq<Seq<char>>>::empty());
        assert(doc_occurrences(Seq::<Seq<Seq<char>>>::empty(), c) == 0);
        assert(doc_occurrences(d, c) == 0);
        assert(d.push(x)[0] == x);
    } else {
        assert(d.push(x).drop_first() =~= d.drop_first().push(x));
        assert(d.push(x)[0] == d[0]);
        lemma_doc_occ_push(d.drop_first(), x, c);
    }
}

proof fn lemma_sat_add_chain(a: nat, x: nat, y: nat)
    ensures
        sat_add(sat_add(a, x), y) == sat_add(a, x + y),
{
}

/// Cleans one run's text fragment in place.
pub fn clean_run(t: &RuleTable, counters: &mut CounterStore, text: &mut String)
    requires
        t.wf(),
        bounded(old(counters)@),
        forall|c: char| #[trigger] t.disallowed(c) ==> old(counters)@.contains_key(c),
    ensures
        final(text)@ == clean_spec(*t, old(text)@),
        bounded(final(counters)@),
        final(counters)@.dom() == old(counters)@.dom(),
        forall|c: char| #[trigger]
            t.disallowed(c) ==> final(counters)@[c] == sat_add(
                old(counters)@[c],
                occurrences(old(text)@, c),
            ),
        forall|c: char|
            !t.disallowed(c) && old(counters)@.contains_key(c) ==> final(counters)@[c] == old(
                counters,
            )@[c],
{
    let cleaned = clean_text(t, counters, text.as_str());
    *text = cleaned.0;
}

/// Cleans every run of a paragraph, in order.
pub fn clean_paragraph(t: &RuleTable, counters: &mut CounterStore, p: &mut Paragraph)
    requires
        t.wf(),
        bounded(old(counters)@),
        forall|c: char| #[trigger] t.disallowed(c) ==> old(counters)@.contains_key(c),
    ensures
        final(p)@.len() == old(p)@.len(),
        forall|j: int|
            0 <= j < old(p)@.len() ==> (#[trigger] final(p)@[j]) == clean_spec(*t, old(p)@[j]),
        bounded(final(counters)@),
        final(counters)@.dom() == old(counters)@.dom(),
        forall|c: char| #[trigger]
            t.disallowed(c) ==> final(counters)@[c] == sat_add(
                old(counters)@[c],
                para_occurrences(old(p)@, c),
            ),
        forall|c: char|
            !t.disallowed(c) && old(counters)@.contains_key(c) ==> final(counters)@[c] == old(
                counters,
            )@[c],
{
    let n = p.runs.len();
    for k in 0..n
        invariant
            t.wf(),
            n == old(p)@.len(),
            p@.len() == n,
            forall|j: int| 0 <= j < k ==> (#[trigger] p@[j]) == clean_spec(*t, old(p)@[j]),
            forall|j: int| k <= j < n ==> (#[trigger] p@[j]) == old(p)@[j],
            bounded(counters@),
            counters@.dom() == old(counters)@.dom(),
            forall|c: char| #[trigger] t.disallowed(c) ==> counters@.contains_key(c),
            forall|c: char| #[trigger]
                t.disallowed(c) ==> counters@[c] == sat_add(
                    old(counters)@[c],
                    para_occurrences(old(p)@.take(k as int), c),
                ),
            forall|c: char|
                !t.disallowed(c) && old(counters)@.contains_key(c) ==> counters@[c] == old(
                    counters,
                )@[c],
    {
        let ghost pv_before = p@;
        let ghost runs_before = p.runs@;
        proof {
            assert(pv_before[k as int] == old(p)@[k as int]);
            assert(p.runs@[k as int]@ == pv_before[k as int]);
        }
        let cleaned = clean_text(t, counters, p.runs[k].as_str());
        p.runs.set(k, cleaned.0);
        proof {
            assert(old(p)@.take(k + 1) =~= old(p)@.take(k as int).push(old(p)@[k as int]));
            assert forall|j: int| 0 <= j < k + 1 implies (#[trigger] p@[j]) == clean_spec(
                *t,
                old(p)@[j],
            ) by {
                if j < k {
                    assert(p.runs@[j] == runs_before[j]);
                    assert(p@[j] == pv_before[j]);
                } else {
                    assert(p.runs@[j] == cleaned.0);
                    assert(p@[j] == cleaned.0@);
                    assert(cleaned.0@ == clean_spec(*t, pv_before[k as int]));
                }
            }
            assert forall|j: int| k + 1 <= j < n implies (#[trigger] p@[j]) == old(p)@[j] by {
                assert(p.runs@[j] == runs_before[j]);
                assert(p@[j] == pv_before[j]);
            }
            assert forall|c: char| #[trigger] t.disallowed(c) implies counters@[c] == sat_add(
                old(counters)@[c],
                para_occurrences(old(p)@.take(k + 1), c),
            ) by {
                lemma_para_occ_push(old(p)@.take(k as int), old(p)@[k as int], c);
                lemma_sat_add_chain(
                    old(counters)@[c],
                    para_occurrences(old(p)@.take(k as int), c),
                    occurrences(old(p)@[k as int], c),
                );
            }
        }
    }
    proof {
        assert(old(p)@.take(n as int) =~= old(p)@);
    }
}

/// Cleans every text fragment of a document, in document order. Paragraph and
/// run boundaries are untouched; afterwards every counter has grown by the
/// number of times its character occurred in the original document text.
pub fn clean_document(t: &RuleTable, counters: &mut CounterStore, d: &mut Document)
    requires
        t.wf(),
        bounded(old(counters)@),
        forall|c: char| #[trigger] t.disallowed(c) ==> old(counters)@.contains_key(c),
    ensures
        final(d)@.len() == old(d)@.len(),
        forall|i: int|
            0 <= i < old(d)@.len() ==> (#[trigger] final(d)@[i]).len() == old(d)@[i].len(),
        forall|i: int, j: int|
            0 <= i < old(d)@.len() && 0 <= j < old(d)@[i].len() ==> (#[trigger] final(d)@[i][j])
                == clean_spec(*t, old(d)@[i][j]),
        bounded(final(counters)@),
        final(counters)@.dom() == old(counters)@.dom(),
        forall|c: char| #[trigger]
            t.disallowed(c) ==> final(counters)@[c] == sat_add(
                old(counters)@[c],
                doc_occurrences(old(d)@, c),
            ),
        forall|c: char|
            !t.disallowed(c) && old(counters)@.contains_key(c) ==> final(counters)@[c] == old(
                counters,
            )@[c],
{
    let n = d.paragraphs.len();
    for k in 0..n
        invariant
            t.wf(),
            n == old(d)@.len(),
            d@.len() == n,
            forall|i: int|
                0 <= i < k ==> (#[trigger] d@[i]).len() == old(d)@[i].len(),
            forall|i: int, j: int|
                0 <= i < k && 0 <= j < old(d)@[i].len() ==> (#[trigger] d@[i][j]) == clean_spec(
                    *t,
                    old(d)@[i][j],
                ),
            forall|i: int| k <= i < n ==> (#[trigger] d@[i]) == old(d)@[i],
            bounded(counters@),
            counters@.dom() == old(counters)@.dom(),
            forall|c: char| #[trigger] t.disallowed(c) ==> counters@.contains_key(c),
            forall|c: char| #[trigger]
                t.disallowed(c) ==> counters@[c] == sat_add(
                    old(counters)@[c],
                    doc_occurrences(old(d)@.take(k as int), c),
                ),
            forall|c: char|
                !t.disallowed(c) && old(counters)@.contains_key(c) ==> counters@[c] == old(
                    counters,
                )@[c],
    {
        let ghost dv_before = d@;
        let ghost paras_before = d.paragraphs@;
        let mut para = d.paragraphs.remove(k);
        let ghost para_orig = para;
        clean_paragraph(t, counters, &mut para);
        d.paragraphs.insert(k, para);
        proof {
            assert(para_orig == paras_before[k as int]);
            assert(para_orig@ == dv_before[k as int]);
            assert(dv_before[k as int] == old(d)@[k as int]);
            assert(d.paragraphs@ =~= paras_before.update(k as int, para));
            assert(old(d)@.take(k + 1) =~= old(d)@.take(k as int).push(old(d)@[k as int]));
            assert forall|i: int| k + 1 <= i < n implies (#[trigger] d@[i]) == old(d)@[i] by {
                assert(d.paragraphs@[i] == paras_before[i]);
                assert(d@[i] == dv_before[i]);
            }
            assert forall|i: int| 0 <= i < k + 1 implies (#[trigger] d@[i]).len()
                == old(d)@[i].len() by {
                if i < k {
                    assert(d.paragraphs@[i] == paras_before[i]);
                    assert(d@[i] == dv_before[i]);
                } else {
                    assert(d@[k as int] == para@);
                }
            }
            assert forall|i: int, j: int|
                0 <= i < k + 1 && 0 <= j < old(d)@[i].len() implies (#[trigger] d@[i][j])
                == clean_spec(*t, old(d)@[i][j]) by {
                if i < k {
                    assert(d.paragraphs@[i] == paras_before[i]);
                    assert(d@[i] == dv_before[i]);
                } else {
                    assert(d@[k as int] == para@);
                    assert(para@[j] == clean_spec(*t, para_orig@[j]));
                }
            }
            assert forall|c: char| #[trigger] t.disallowed(c) implies counters@[c] == sat_add(
                old(counters)@[c],
                doc_occurrences(old(d)@.take(k + 1), c),
            ) by {
                lemma_doc_occ_push(old(d)@.take(k as int), old(d)@[k as int], c);
                lemma_sat_add_chain(
                    old(counters)@[c],
                    doc_occurrences(old(d)@.take(k as int), c),
                    para_occurrences(old(d)@[k as int], c),
                );
            }
        }
    }
    proof {
        assert(old(d)@.take(n as int) =~= old(d)@);
    }
}

/// After one full pass over a document with freshly zeroed counters, a
/// disallowed character's counter holds exactly the number of times it
/// occurred in the document's original text, as long as that number is
/// representable.
pub proof fn lemma_full_pass_counts(
    before: Map<char, nat>,
    after: Map<char, nat>,
    t: RuleTable,
    d: Seq<Seq<Seq<char>>>,
    c: char,
)
    requires
        t.disallowed(c),
        before.contains_key(c),
        before[c] == 0,
        doc_occurrences(d, c) <= usize::MAX,
        after[c] == sat_add(before[c], doc_occurrences(d, c)),
    ensures
        after[c] == doc_occurrences(d, c),
{
}

} // verus!
