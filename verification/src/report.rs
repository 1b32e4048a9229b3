//! The statistics reporter: turns a counter snapshot into rows sorted by
//! descending count and renders them as a line-oriented report.

use vstd::prelude::*;
use crate::counters::sat_cap;
use crate::rules::RuleTable;

verus! {

/// One rendered statistics row: a character's display name, the character,
/// and how many times it was removed.
pub struct ReportRow {
    pub name: String,
    pub ch: char,
    pub count: usize,
}

/// A row is right for the table: a positive count, and the table's display
/// name for its character (`UNKNOWN` where the table does not know it).
#[verifier::opaque]
pub open spec fn row_good(t: RuleTable, row: ReportRow) -> bool {
    row.count > 0 && row.name@ == (if t.disallowed(row.ch) {
        t.name_of(row.ch)
    } else {
        "UNKNOWN"@
    })
}

/// The snapshot's entries with a positive count, in snapshot order.
pub open spec fn nonzero_pairs(s: Seq<(char, usize)>) -> Seq<(char, usize)>
    decreases s.len(),
{
    if s.len() == 0 {
        Seq::empty()
    } else if s.last().1 > 0 {
        nonzero_pairs(s.drop_last()).push(s.last())
    } else {
        nonzero_pairs(s.drop_last())
    }
}

/// Builds one report row for a character with a positive count.
fn make_row(t: &RuleTable, c: char, count: usize) -> (r: ReportRow)
    requires
        t.wf(),
        count > 0,
    ensures
        row_good(*t, r),
        r.ch == c,
        r.count == count,
{
    let name = match t.display_name_for(c) {
        Some(n) => n,
        None => "UNKNOWN".to_owned(),
    };
    let r = ReportRow { name, ch: c, count };
    proof {
        assert(row_good(*t, r)) by {
            reveal(row_good);
        }
    }
    r
}

/// One row per snapshot entry with a positive count, in snapshot order, each
/// carrying the table's display name for its character.
pub fn report_rows(snapshot: &Vec<(char, usize)>, t: &RuleTable) -> (r: Vec<ReportRow>)
    requires
        t.wf(),
    ensures
        r@.len() == nonzero_pairs(snapshot@).len(),
        forall|i: int|
            0 <= i < r@.len() ==> (#[trigger] r@[i]).ch == nonzero_pairs(snapshot@)[i].0
                && r@[i].count == nonzero_pairs(snapshot@)[i].1,
        forall|i: int| 0 <= i < r@.len() ==> row_good(*t, #[trigger] r@[i]),
{
    let sn = snapshot.len();
    let mut rows: Vec<ReportRow> = Vec::new();
    let ghost mut gpairs: Seq<(char, usize)> = Seq::empty();
    proof {
        assert(gpairs =~= nonzero_pairs(snapshot@.take(0)));
    }
    let mut k: usize = 0;
    while k < sn
        invariant
            t.wf(),
            k <= sn,
            sn == snapshot@.len(),
            gpairs == nonzero_pairs(snapshot@.take(k as int)),
            rows@.len() == gpairs.len(),
            forall|i: int|
                0 <= i < rows@.len() ==> (#[trigger] rows@[i]).ch == gpairs[i].0 && rows@[i].count
                    == gpairs[i].1,
            forall|i: int| 0 <= i < rows@.len() ==> row_good(*t, #[trigger] rows@[i]),
        decreases sn - k,
    {
        let c = snapshot[k].0;
        let count = snapshot[k].1;
        if count > 0 {
            let row = make_row(t, c, count);
            rows.push(row);
            proof {
                gpairs = gpairs.push((c, count));
            }
        }
        k = k + 1;
        proof {
            let s1 = snapshot@.take(k as int);
            assert(s1.drop_last() =~= snapshot@.take(k - 1));
            assert(s1.last() == snapshot@[k - 1]);
            if s1.last().1 > 0 {
                assert(nonzero_pairs(s1) == nonzero_pairs(snapshot@.take(k - 1)).push(
                    snapshot@[k - 1],
                ));
            } else {
                assert(nonzero_pairs(s1) == nonzero_pairs(snapshot@.take(k - 1)));
            }
            assert(gpairs == nonzero_pairs(s1));
        }
    }
    proof {
        assert(snapshot@.take(sn as int) =~= snapshot@);
    }
    rows
}

/// The rows sorted by count descending: the same rows, reordered and nothing
/// else (ties in no promised order).
pub fn sort_rows_desc(rows: Vec<ReportRow>) -> (r: Vec<ReportRow>)
    ensures
        r@.to_multiset() == rows@.to_multiset(),
        r@.len() == rows@.len(),
        forall|i: int, j: int| 0 <= i < j < r@.len() ==> r@[i].count >= r@[j].count,
{
    broadcast use vstd::seq_lib::group_to_multiset_ensures;
    broadcast use vstd::multiset::group_multiset_axioms;

    let mut pending = rows;
    let mut out: Vec<ReportRow> = Vec::new();
    proof {
        assert(out@.to_multiset().add(pending@.to_multiset()) =~= rows@.to_multiset());
    }
    while pending.len() > 0
        invariant
            out@.len() + pending@.len() == rows@.len(),
            out@.to_multiset().add(pending@.to_multiset()) == rows@.to_multiset(),
            forall|i: int, j: int| 0 <= i < j < out@.len() ==> out@[i].count >= out@[j].count,
            forall|i: int, j: int|
                0 <= i < out@.len() && 0 <= j < pending@.len() ==> out@[i].count
                    >= pending@[j].count,
        decreases pending@.len(),
    {
        let mut m: usize = 0;
        let pn = pending.len();
        for idx in 1..pn
            invariant
                pn == pending@.len(),
                m < pn,
                forall|j: int| 0 <= j < idx ==> (#[trigger] pending@[j]).count
                    <= pending@[m as int].count,
        {
            if pending[idx].count > pending[m].count {
                m = idx;
            }
        }
        let ghost pending_before = pending@;
        let ghost out_before = out@;
        let row = pending.remove(m);
        out.push(row);
        proof {
            assert(pending_before.contains(pending_before[m as int]));
            vstd::seq_lib::to_multiset_contains(pending_before, row);
            vstd::seq_lib::to_multiset_remove(pending_before, m as int);
            vstd::seq_lib::to_multiset_build(out_before, row);
            assert(pending@.to_multiset() == pending_before.to_multiset().remove(row));
            assert(out@.to_multiset() == out_before.to_multiset().insert(row));
            assert(pending_before.to_multiset().count(row) > 0);
            assert forall|x: ReportRow|
                out@.to_multiset().add(pending@.to_multiset()).count(x)
                    == out_before.to_multiset().add(pending_before.to_multiset()).count(x) by {
                assert(out@.to_multiset().count(x) == out_before.to_multiset().count(x) + (
                if x == row {
                    1nat
                } else {
                    0nat
                }));
                assert(pending@.to_multiset().count(x) == pending_before.to_multiset().count(x) - (
                if x == row {
                    1nat
                } else {
                    0nat
                }));
            }
            assert(out@.to_multiset().add(pending@.to_multiset()) =~= out_before.to_multiset().add(
                pending_before.to_multiset(),
            ));
            assert forall|i: int, j: int|
                0 <= i < out@.len() && 0 <= j < pending@.len() implies out@[i].count
                >= pending@[j].count by {
                if j < m {
                    assert(pending@[j] == pending_before[j]);
                } else {
                    assert(pending@[j] == pending_before[j + 1]);
                }
            }
        }
    }
    out
}

/// The sum of the rows' counts.
pub open spec fn rows_total(rows: Seq<ReportRow>) -> nat
    decreases rows.len(),
{
    if rows.len() == 0 {
        0
    } else {
        rows_total(rows.drop_last()) + rows.last().count as nat
    }
}

/// The total number of removals the rows report, saturating at the largest
/// representable value.
pub fn total_count(rows: &Vec<ReportRow>) -> (r: usize)
    ensures
        r as nat == sat_cap(rows_total(rows@)),
{
    let n = rows.len();
    let mut acc: usize = 0;
    for k in 0..n
        invariant
            n == rows@.len(),
            acc as nat == sat_cap(rows_total(rows@.take(k as int))),
    {
        let c = rows[k].count;
        acc = if acc <= usize::MAX - c {
            acc + c
        } else {
            usize::MAX
        };
        proof {
            assert(rows@.take(k + 1).drop_last() =~= rows@.take(k as int));
            assert(rows@.take(k + 1).last() == rows@[k as int]);
        }
    }
    proof {
        assert(rows@.take(n as int) =~= rows@);
    }
    acc
}

/// The character for one hexadecimal digit, upper case.
pub open spec fn hex_digit_char(d: nat) -> char {
    if d == 0 {
        '0'
    } else if d == 1 {
        '1'
    } else if d == 2 {
        '2'
    } else if d == 3 {
        '3'
    } else if d == 4 {
        '4'
    } else if d == 5 {
        '5'
    } else if d == 6 {
        '6'
    } else if d == 7 {
        '7'
    } else if d == 8 {
        '8'
    } else if d == 9 {
        '9'
    } else if d == 10 {
        'A'
    } else if d == 11 {
        'B'
    } else if d == 12 {
        'C'
    } else if d == 13 {
        'D'
    } else if d == 14 {
        'E'
    } else {
        'F'
    }
}

/// `n` written in hexadecimal, upper case, no leading zeros.
pub open spec fn hex_seq(n: nat) -> Seq<char>
    decreases n,
{
    if n < 16 {
        seq![hex_digit_char(n)]
    } else {
        hex_seq(n / 16).push(hex_digit_char(n % 16))
    }
}

/// Digits padded with zeros on the left to at least four places.
pub open spec fn pad4(h: Seq<char>) -> Seq<char> {
    if h.len() >= 4 {
        h
    } else {
        Seq::new((4 - h.len()) as nat, |i: int| '0') + h
    }
}

/// A character's codepoint in at-least-four-digit upper-case hexadecimal.
pub open spec fn codepoint_hex(c: char) -> Seq<char> {
    pad4(hex_seq(c as nat))
}

fn hex_digit(d: u32) -> (r: char)
    requires
        d < 16,
    ensures
        r == hex_digit_char(d as nat),
{
    if d == 0 {
        '0'
    } else if d == 1 {
        '1'
    } else if d == 2 {
        '2'
    } else if d == 3 {
        '3'
    } else if d == 4 {
        '4'
    } else if d == 5 {
        '5'
    } else if d == 6 {
        '6'
    } else if d == 7 {
        '7'
    } else if d == 8 {
        '8'
    } else if d == 9 {
        '9'
    } else if d == 10 {
        'A'
    } else if d == 11 {
        'B'
    } else if d == 12 {
        'C'
    } else if d == 13 {
        'D'
    } else if d == 14 {
        'E'
    } else {
        'F'
    }
}

fn hex_digits(n: u32) -> (r: Vec<char>)
    ensures
        r@ == hex_seq(n as nat),
    decreases n,
{
    if n < 16 {
        let mut v: Vec<char> = Vec::new();
        v.push(hex_digit(n));
        proof {
            assert(v@ =~= seq![hex_digit_char(n as nat)]);
        }
        v
    } else {
        proof {
            vstd::arithmetic::div_mod::lemma_div_decreases(n as int, 16);
            vstd::arithmetic::div_mod::lemma_div_pos_is_pos(n as int, 16);
        }
        let mut v = hex_digits(n / 16);
        v.push(hex_digit(n % 16));
        v
    }
}

/// A character's codepoint in at-least-four-digit upper-case hexadecimal.
pub fn codepoint_hex_chars(c: char) -> (r: Vec<char>)
    ensures
        r@ == codepoint_hex(c),
{
    let digits = hex_digits(c as u32);
    if digits.len() >= 4 {
        proof {
            assert(digits@ == codepoint_hex(c));
        }
        digits
    } else {
        let mut v: Vec<char> = Vec::new();
        let pad = 4 - digits.len();
        for k in 0..pad
            invariant
                pad == 4 - digits@.len(),
                digits@.len() < 4,
                v@.len() == k,
                forall|i: int| 0 <= i < k ==> v@[i] == '0',
        {
            v.push('0');
        }
        let dn = digits.len();
        for k in 0..dn
            invariant
                dn == digits@.len(),
                v@.len() == pad + k,
                pad == 4 - digits@.len(),
                digits@.len() < 4,
                forall|i: int| 0 <= i < pad ==> v@[i] == '0',
                forall|i: int| 0 <= i < k ==> v@[pad + i] == digits@[i],
        {
            v.push(digits[k]);
        }
        proof {
            assert(v@ =~= Seq::new((4 - digits@.len()) as nat, |i: int| '0') + digits@);
        }
        v
    }
}

/// The character for one decimal digit.
pub open spec fn dec_digit_char(d: nat) -> char {
    if d == 0 {
        '0'
    } else if d == 1 {
        '1'
    } else if d == 2 {
        '2'
    } else if d == 3 {
        '3'
    } else if d == 4 {
        '4'
    } else if d == 5 {
        '5'
    } else if d == 6 {
        '6'
    } else if d == 7 {
        '7'
    } else if d == 8 {
        '8'
    } else {
        '9'
    }
}

/// `n` written in decimal, no leading zeros.
pub open spec fn dec_seq(n: nat) -> Seq<char>
    decreases n,
{
    if n < 10 {
        seq![dec_digit_char(n)]
    } else {
        dec_seq(n / 10).push(dec_digit_char(n % 10))
    }
}

fn dec_digit(d: usize) -> (r: char)
    requires
        d < 10,
    ensures
        r == dec_digit_char(d as nat),
{
    if d == 0 {
        '0'
    } else if d == 1 {
        '1'
    } else if d == 2 {
        '2'
    } else if d == 3 {
        '3'
    } else if d == 4 {
        '4'
    } else if d == 5 {
        '5'
    } else if d == 6 {
        '6'
    } else if d == 7 {
        '7'
    } else if d == 8 {
        '8'
    } else {
        '9'
    }
}

/// `n`'s decimal digits.
pub fn dec_digits(n: usize) -> (r: Vec<char>)
    ensures
        r@ == dec_seq(n as nat),
    decreases n,
{
    if n < 10 {
        let mut v: Vec<char> = Vec::new();
        v.push(dec_digit(n));
        proof {
            assert(v@ =~= seq![dec_digit_char(n as nat)]);
        }
        v
    } else {
        proof {
            vstd::arithmetic::div_mod::lemma_div_decreases(n as int, 10);
            vstd::arithmetic::div_mod::lemma_div_pos_is_pos(n as int, 10);
        }
        let mut v = dec_digits(n / 10);
        v.push(dec_digit(n % 10));
        v
    }
}

/// One report line: display name, codepoint, the character itself, count.
pub open spec fn row_line(row: ReportRow) -> Seq<char> {
    row.name@ + " (U+"@ + codepoint_hex(row.ch) + ") - "@ + seq![row.ch] + ": "@ + dec_seq(
        row.count as nat,
    ) + "\n"@
}

/// The lines of all rows, in order.
pub open spec fn rows_lines(rows: Seq<ReportRow>) -> Seq<char>
    decreases rows.len(),
{
    if rows.len() == 0 {
        Seq::empty()
    } else {
        rows_lines(rows.drop_last()) + row_line(rows.last())
    }
}

/// The full report: a heading, one line per row, and a total line.
pub open spec fn report_text(rows: Seq<ReportRow>, total: nat) -> Seq<char> {
    "Character Removal Statistics:\n============================\n"@ + rows_lines(rows)
        + "\nTotal characters removed: "@ + dec_seq(total) + "\n"@
}

/// Renders the report rows and total as one composed message.
pub fn render_report(rows: &Vec<ReportRow>, total: usize) -> (r: String)
    ensures
        r@ == report_text(rows@, total as nat),
{
    let mut out = "Character Removal Statistics:\n============================\n".to_owned();
    let ghost header = out@;
    let n = rows.len();
    for k in 0..n
        invariant
            n == rows@.len(),
            header == "Character Removal Statistics:\n============================\n"@,
            out@ == header + rows_lines(rows@.take(k as int)),
    {
        out.append(rows[k].name.as_str());
        out.append(" (U+");
        let hexv = codepoint_hex_chars(rows[k].ch);
        let hexs = crate::cleaner::chars_to_string(&hexv);
        out.append(hexs.as_str());
        out.append(") - ");
        let mut chv: Vec<char> = Vec::new();
        chv.push(rows[k].ch);
        let chs = crate::cleaner::chars_to_string(&chv);
        out.append(chs.as_str());
        out.append(": ");
        let decv = dec_digits(rows[k].count);
        let decs = crate::cleaner::chars_to_string(&decv);
        out.append(decs.as_str());
        out.append("\n");
        proof {
            assert(chv@ =~= seq![rows@[k as int].ch]);
            assert(rows@.take(k + 1).drop_last() =~= rows@.take(k as int));
            assert(rows@.take(k + 1).last() == rows@[k as int]);
            assert(out@ =~= header + rows_lines(rows@.take(k + 1)));
        }
    }
    proof {
        assert(rows@.take(n as int) =~= rows@);
    }
    out.append("\nTotal characters removed: ");
    let totv = dec_digits(total);
    let tots = crate::cleaner::chars_to_string(&totv);
    out.append(tots.as_str());
    out.append("\n");
    proof {
        assert(out@ =~= report_text(rows@, total as nat));
    }
    out
}

/// The file name a cleaned document is saved under: the original name's stem
/// with `_cleaned` appended, then the original extension.
pub fn cleaned_file_name(stem: &str, extension: &str) -> (r: String)
    ensures
        r@ == stem@ + "_cleaned."@ + extension@,
{
    let mut r = stem.to_owned();
    r.append("_cleaned.");
    r.append(extension);
    r
}

} // verus!
