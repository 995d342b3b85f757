//! The ranked renderer: serializes ranked (record, count) entries either as
//! a delimited text stream or as a plain aligned two-column table.
//!
//! Rendering is total: any entry sequence renders, and an empty one yields
//! header-only output in both formats.
//!
//! Delimited records are not escaped: a record that itself contains the
//! delimiter produces a line that is ambiguous to re-parse. This is a
//! documented limitation of the format, not worked around here.

use crate::decimal::{dec_digits, is_decimal_digit, lemma_dec_digits_are_digits, usize_to_decimal};
use crate::tally::entries_view;
use crate::text::{lemma_repeat_char_concat, push_char, push_repeated, repeat_char};
use vstd::prelude::*;
use vstd::string::StrSliceExecFns;

verus! {

/// Concatenation of `lines`, each terminated by a newline.
pub open spec fn joined_lines(lines: Seq<Seq<char>>) -> Seq<char>
    decreases lines.len(),
{
    if lines.len() == 0 {
        Seq::empty()
    } else {
        joined_lines(lines.drop_last()) + lines.last() + seq!['\n']
    }
}

proof fn lemma_joined_lines_snoc(lines: Seq<Seq<char>>, k: int)
    requires
        0 <= k < lines.len(),
    ensures
        joined_lines(lines.take(k + 1)) == joined_lines(lines.take(k)) + lines[k] + seq!['\n'],
{
    assert(lines.take(k + 1).drop_last() =~= lines.take(k));
    assert(lines.take(k + 1).last() == lines[k]);
}

/// The header line of the delimited format.
pub open spec fn word_header(delim: char) -> Seq<char> {
    "word"@ + seq![delim] + "count"@
}

/// One delimited line: the record, the delimiter, the decimal count.
pub open spec fn delimited_line(record: Seq<char>, delim: char, count: nat) -> Seq<char> {
    record + seq![delim] + dec_digits(count)
}

/// The delimited lines for a sequence of entries, without the header.
pub open spec fn delimited_body(entries: Seq<(Seq<char>, nat)>, delim: char) -> Seq<Seq<char>> {
    Seq::new(entries.len(), |i: int| delimited_line(entries[i].0, delim, entries[i].1))
}

/// The whole delimited output: header line, then one line per entry, every
/// line newline-terminated.
pub open spec fn delimited_output(entries: Seq<(Seq<char>, nat)>, delim: char) -> Seq<char> {
    joined_lines(seq![word_header(delim)] + delimited_body(entries, delim))
}

/// Renders `entries` in the delimited format: a `word<delim>count` header
/// line, then `<record><delim><count>` for each entry in order, each line
/// newline-terminated.
pub fn render_delimited(entries: &Vec<(String, usize)>, delimiter: char) -> (out: String)
    ensures
        out@ == delimited_output(entries_view(entries@), delimiter),
{
    let ghost ev = entries_view(entries@);
    let ghost lines = seq![word_header(delimiter)] + delimited_body(ev, delimiter);
    let mut out = String::new();
    out.append("word");
    push_char(&mut out, delimiter);
    out.append("count");
    push_char(&mut out, '\n');
    proof {
        lemma_joined_lines_snoc(lines, 0);
        assert(lines.take(0) =~= Seq::<Seq<char>>::empty());
        assert(lines[0] == word_header(delimiter));
        assert(out@ =~= joined_lines(lines.take(1)));
    }
    let mut i: usize = 0;
    while i < entries.len()
        invariant
            i <= entries@.len(),
            ev == entries_view(entries@),
            lines == seq![word_header(delimiter)] + delimited_body(ev, delimiter),
            lines.len() == 1 + entries@.len(),
            out@ == joined_lines(lines.take(1 + i as int)),
        decreases entries@.len() - i,
    {
        out.append(entries[i].0.as_str());
        push_char(&mut out, delimiter);
        let count_digits = usize_to_decimal(entries[i].1);
        out.append(count_digits.as_str());
        push_char(&mut out, '\n');
        proof {
            lemma_joined_lines_snoc(lines, 1 + i as int);
            assert(lines[1 + i as int] == delimited_line(ev[i as int].0, delimiter, ev[
                i as int].1));
            assert(ev[i as int].0 == entries@[i as int].0@);
            assert(out@ =~= joined_lines(lines.take(2 + i as int)));
        }
        i = i + 1;
    }
    proof {
        assert(lines.take(lines.len() as int) =~= lines);
    }
    out
}

/// The larger of two widths.
pub open spec fn max2(a: nat, b: nat) -> nat {
    if a >= b {
        a
    } else {
        b
    }
}

/// Width of the record column: the longest record, never narrower than the
/// column label.
pub open spec fn key_col_width(entries: Seq<(Seq<char>, nat)>, label: Seq<char>) -> nat
    decreases entries.len(),
{
    if entries.len() == 0 {
        label.len()
    } else {
        max2(key_col_width(entries.drop_last(), label), entries.last().0.len())
    }
}

/// Width of the count column: the longest decimal count, never narrower than
/// the `Count` header.
pub open spec fn count_col_width(entries: Seq<(Seq<char>, nat)>) -> nat
    decreases entries.len(),
{
    if entries.len() == 0 {
        "Count"@.len()
    } else {
        max2(count_col_width(entries.drop_last()), dec_digits(entries.last().1).len())
    }
}

/// `s` left-justified in a field of width `w` (unchanged if already wider).
pub open spec fn pad_right(s: Seq<char>, w: nat) -> Seq<char> {
    if s.len() >= w {
        s
    } else {
        s + repeat_char(' ', (w - s.len()) as nat)
    }
}

/// `s` right-justified in a field of width `w` (unchanged if already wider).
pub open spec fn pad_left(s: Seq<char>, w: nat) -> Seq<char> {
    if s.len() >= w {
        s
    } else {
        repeat_char(' ', (w - s.len()) as nat) + s
    }
}

/// The first column's label: `Occurrences` in character mode, `Word` in word
/// mode.
pub open spec fn table_label(char_mode: bool) -> Seq<char> {
    if char_mode {
        "Occurrences"@
    } else {
        "Word"@
    }
}

/// The table's header row: the label left-justified, one space, `Count`
/// right-justified.
pub open spec fn table_header_row(label: Seq<char>, w1: nat, w2: nat) -> Seq<char> {
    pad_right(label, w1) + seq![' '] + pad_left("Count"@, w2)
}

/// The horizontal separator under the header: dashes across both columns and
/// the gap between them.
pub open spec fn table_separator_row(w1: nat, w2: nat) -> Seq<char> {
    repeat_char('-', w1 + 1 + w2)
}

/// One data row: the record left-justified, one space, the decimal count
/// right-justified.
pub open spec fn table_data_row(record: Seq<char>, count: nat, w1: nat, w2: nat) -> Seq<char> {
    pad_right(record, w1) + seq![' '] + pad_left(dec_digits(count), w2)
}

/// All data rows, in entry order.
pub open spec fn table_data_rows(entries: Seq<(Seq<char>, nat)>, w1: nat, w2: nat) -> Seq<
    Seq<char>,
> {
    Seq::new(entries.len(), |i: int| table_data_row(entries[i].0, entries[i].1, w1, w2))
}

/// The whole aligned-table output: header row, separator, one row per entry,
/// every line newline-terminated.
pub open spec fn table_output(entries: Seq<(Seq<char>, nat)>, char_mode: bool) -> Seq<char> {
    let label = table_label(char_mode);
    let w1 = key_col_width(entries, label);
    let w2 = count_col_width(entries);
    joined_lines(
        seq![table_header_row(label, w1, w2), table_separator_row(w1, w2)] + table_data_rows(
            entries,
            w1,
            w2,
        ),
    )
}

proof fn lemma_key_col_width_bounds(entries: Seq<(Seq<char>, nat)>, label: Seq<char>)
    ensures
        label.len() <= key_col_width(entries, label),
        forall|i: int|
            0 <= i < entries.len() ==> (#[trigger] entries[i]).0.len() <= key_col_width(
                entries,
                label,
            ),
    decreases entries.len(),
{
    if entries.len() > 0 {
        lemma_key_col_width_bounds(entries.drop_last(), label);
        assert forall|i: int| 0 <= i < entries.len() implies (#[trigger] entries[i]).0.len()
            <= key_col_width(entries, label) by {
            if i < entries.len() - 1 {
                assert(entries.drop_last()[i] == entries[i]);
            }
        }
    }
}

proof fn lemma_count_col_width_bounds(entries: Seq<(Seq<char>, nat)>)
    ensures
        "Count"@.len() <= count_col_width(entries),
        forall|i: int|
            0 <= i < entries.len() ==> dec_digits((#[trigger] entries[i]).1).len()
                <= count_col_width(entries),
    decreases entries.len(),
{
    if entries.len() > 0 {
        lemma_count_col_width_bounds(entries.drop_last());
        assert forall|i: int| 0 <= i < entries.len() implies dec_digits(
            (#[trigger] entries[i]).1,
        ).len() <= count_col_width(entries) by {
            if i < entries.len() - 1 {
                assert(entries.drop_last()[i] == entries[i]);
            }
        }
    }
}

/// Computes the record column width of `entries` under `label`.
fn key_col_width_exec(entries: &Vec<(String, usize)>, label: &str) -> (w: usize)
    ensures
        w as nat == key_col_width(entries_view(entries@), label@),
{
    let ghost ev = entries_view(entries@);
    let mut w = label.unicode_len();
    proof {
        assert(ev.take(0) =~= Seq::<(Seq<char>, nat)>::empty());
    }
    let mut i: usize = 0;
    while i < entries.len()
        invariant
            i <= entries@.len(),
            ev == entries_view(entries@),
            ev.len() == entries@.len(),
            w as nat == key_col_width(ev.take(i as int), label@),
        decreases entries@.len() - i,
    {
        let l = entries[i].0.as_str().unicode_len();
        proof {
            assert(ev.take(i + 1).drop_last() =~= ev.take(i as int));
            assert(ev.take(i + 1).last() == ev[i as int]);
            assert(ev[i as int].0 == entries@[i as int].0@);
        }
        if l > w {
            w = l;
        }
        i = i + 1;
    }
    proof {
        assert(ev.take(entries@.len() as int) =~= ev);
    }
    w
}

/// Computes the count column width of `entries`.
fn count_col_width_exec(entries: &Vec<(String, usize)>) -> (w: usize)
    ensures
        w as nat == count_col_width(entries_view(entries@)),
{
    let ghost ev = entries_view(entries@);
    let mut w = "Count".unicode_len();
    proof {
        assert(ev.take(0) =~= Seq::<(Seq<char>, nat)>::empty());
    }
    let mut i: usize = 0;
    while i < entries.len()
        invariant
            i <= entries@.len(),
            ev == entries_view(entries@),
            ev.len() == entries@.len(),
            w as nat == count_col_width(ev.take(i as int)),
        decreases entries@.len() - i,
    {
        let count_digits = usize_to_decimal(entries[i].1);
        let l = count_digits.as_str().unicode_len();
        proof {
            assert(ev.take(i + 1).drop_last() =~= ev.take(i as int));
            assert(ev.take(i + 1).last() == ev[i as int]);
            assert(ev[i as int].1 == entries@[i as int].1 as nat);
        }
        if l > w {
            w = l;
        }
        i = i + 1;
    }
    proof {
        assert(ev.take(entries@.len() as int) =~= ev);
    }
    w
}

/// Appends `s` left-justified in a field of width `w`.
fn push_left_justified(out: &mut String, s: &str, w: usize)
    requires
        s@.len() <= w,
    ensures
        final(out)@ == old(out)@ + pad_right(s@, w as nat),
{
    out.append(s);
    let filler = w - s.unicode_len();
    push_repeated(out, ' ', filler);
    proof {
        assert(out@ =~= old(out)@ + pad_right(s@, w as nat));
    }
}

/// Appends `s` right-justified in a field of width `w`.
fn push_right_justified(out: &mut String, s: &str, w: usize)
    requires
        s@.len() <= w,
    ensures
        final(out)@ == old(out)@ + pad_left(s@, w as nat),
{
    let filler = w - s.unicode_len();
    push_repeated(out, ' ', filler);
    out.append(s);
    proof {
        assert(out@ =~= old(out)@ + pad_left(s@, w as nat));
    }
}

/// Renders `entries` as a plain aligned table: a header row (`Word` or
/// `Occurrences`, then `Count`), a dashed separator line, and one row per
/// entry in order; the first column is left-justified, the second
/// right-justified, each column as wide as its widest cell, one space
/// between the columns.
pub fn render_table(entries: &Vec<(String, usize)>, char_mode: bool) -> (out: String)
    ensures
        out@ == table_output(entries_view(entries@), char_mode),
{
    let ghost ev = entries_view(entries@);
    let label: &str = if char_mode {
        "Occurrences"
    } else {
        "Word"
    };
    proof {
        assert(label@ == table_label(char_mode));
    }
    let w1 = key_col_width_exec(entries, label);
    let w2 = count_col_width_exec(entries);
    let ghost lines = seq![
        table_header_row(label@, w1 as nat, w2 as nat),
        table_separator_row(w1 as nat, w2 as nat),
    ] + table_data_rows(ev, w1 as nat, w2 as nat);
    proof {
        lemma_key_col_width_bounds(ev, label@);
        lemma_count_col_width_bounds(ev);
    }
    let mut out = String::new();
    push_left_justified(&mut out, label, w1);
    push_char(&mut out, ' ');
    push_right_justified(&mut out, "Count", w2);
    push_char(&mut out, '\n');
    proof {
        lemma_joined_lines_snoc(lines, 0);
        assert(lines.take(0) =~= Seq::<Seq<char>>::empty());
        assert(out@ =~= joined_lines(lines.take(1)));
    }
    push_repeated(&mut out, '-', w1);
    push_char(&mut out, '-');
    push_repeated(&mut out, '-', w2);
    push_char(&mut out, '\n');
    proof {
        lemma_joined_lines_snoc(lines, 1);
        lemma_repeat_char_concat('-', w1 as nat, 1);
        lemma_repeat_char_concat('-', w1 as nat + 1, w2 as nat);
        assert(repeat_char('-', 1) =~= seq!['-']);
        assert(out@ =~= joined_lines(lines.take(2)));
    }
    let mut i: usize = 0;
    while i < entries.len()
        invariant
            i <= entries@.len(),
            ev == entries_view(entries@),
            ev.len() == entries@.len(),
            lines == seq![
                table_header_row(table_label(char_mode), w1 as nat, w2 as nat),
                table_separator_row(w1 as nat, w2 as nat),
            ] + table_data_rows(ev, w1 as nat, w2 as nat),
            lines.len() == 2 + entries@.len(),
            out@ == joined_lines(lines.take(2 + i as int)),
            forall|j: int| 0 <= j < ev.len() ==> (#[trigger] ev[j]).0.len() <= w1 as nat,
            forall|j: int|
                0 <= j < ev.len() ==> dec_digits((#[trigger] ev[j]).1).len() <= w2 as nat,
        decreases entries@.len() - i,
    {
        proof {
            assert(ev[i as int].0 == entries@[i as int].0@);
            assert(ev[i as int].1 == entries@[i as int].1 as nat);
        }
        push_left_justified(&mut out, entries[i].0.as_str(), w1);
        push_char(&mut out, ' ');
        let count_digits = usize_to_decimal(entries[i].1);
        push_right_justified(&mut out, count_digits.as_str(), w2);
        push_char(&mut out, '\n');
        proof {
            lemma_joined_lines_snoc(lines, 2 + i as int);
            assert(lines[2 + i as int] == table_data_row(
                ev[i as int].0,
                ev[i as int].1,
                w1 as nat,
                w2 as nat,
            ));
            assert(ev[i as int].0 == entries@[i as int].0@);
            assert(out@ =~= joined_lines(lines.take(3 + i as int)));
        }
        i = i + 1;
    }
    proof {
        assert(lines.take(lines.len() as int) =~= lines);
    }
    out
}

/// An empty entry sequence renders as header-only output in both formats:
/// the delimited output is exactly the header line, and the table output is
/// exactly the header row and the separator line, with no data rows.
pub proof fn lemma_empty_renders_header_only(delim: char, char_mode: bool)
    ensures
        delimited_output(Seq::empty(), delim) == word_header(delim) + seq!['\n'],
        table_output(Seq::empty(), char_mode) == table_label(char_mode) + seq![' '] + "Count"@
            + seq!['\n'] + repeat_char('-', table_label(char_mode).len() + 1 + "Count"@.len())
            + seq!['\n'],
{
    let none: Seq<Seq<char>> = Seq::empty();
    assert(joined_lines(none) == Seq::<char>::empty());

    let dlines = seq![word_header(delim)] + delimited_body(Seq::empty(), delim);
    assert(dlines =~= seq![word_header(delim)]);
    assert(joined_lines(seq![word_header(delim)]) =~= word_header(delim) + seq!['\n']) by {
        assert(seq![word_header(delim)].drop_last() =~= none);
        assert(seq![word_header(delim)].last() == word_header(delim));
    }

    let label = table_label(char_mode);
    let w1 = key_col_width(Seq::empty(), label);
    let w2 = count_col_width(Seq::empty());
    assert(w1 == label.len());
    assert(w2 == "Count"@.len());
    let hrow = table_header_row(label, w1, w2);
    let srow = table_separator_row(w1, w2);
    assert(hrow == label + seq![' '] + "Count"@);
    let tlines = seq![hrow, srow] + table_data_rows(Seq::empty(), w1, w2);
    assert(tlines =~= seq![hrow, srow]);
    assert(joined_lines(seq![hrow]) =~= hrow + seq!['\n']) by {
        assert(seq![hrow].drop_last() =~= none);
        assert(seq![hrow].last() == hrow);
    }
    assert(joined_lines(seq![hrow, srow]) =~= hrow + seq!['\n'] + srow + seq!['\n']) by {
        assert(seq![hrow, srow].drop_last() =~= seq![hrow]);
        assert(seq![hrow, srow].last() == srow);
    }
    assert(table_output(Seq::empty(), char_mode) =~= label + seq![' '] + "Count"@ + seq!['\n']
        + repeat_char('-', label.len() + 1 + "Count"@.len()) + seq!['\n']);
}

/// Splits `s` on every occurrence of the character `d`: the fields between
/// the occurrences, in order. Splitting the empty sequence gives one empty
/// field.
pub open spec fn split_on(s: Seq<char>, d: char) -> Seq<Seq<char>>
    decreases s.len(),
{
    if s.len() == 0 {
        seq![Seq::empty()]
    } else if s.last() == d {
        split_on(s.drop_last(), d).push(Seq::empty())
    } else {
        let rest = split_on(s.drop_last(), d);
        rest.update(rest.len() - 1, rest.last().push(s.last()))
    }
}

proof fn lemma_split_on_nonempty(s: Seq<char>, d: char)
    ensures
        split_on(s, d).len() >= 1,
    decreases s.len(),
{
    if s.len() > 0 {
        lemma_split_on_nonempty(s.drop_last(), d);
    }
}

proof fn lemma_not_contains_parts(s: Seq<char>, c: char)
    requires
        !s.contains(c),
        s.len() > 0,
    ensures
        !s.drop_last().contains(c),
        s.last() != c,
{
    if s.last() == c {
        assert(s.contains(c));
    }
    if s.drop_last().contains(c) {
        let j = choose|j: int| 0 <= j < s.drop_last().len() && s.drop_last()[j] == c;
        assert(s[j] == c);
        assert(s.contains(c));
    }
}

proof fn lemma_split_on_no_delim(s: Seq<char>, d: char)
    requires
        !s.contains(d),
    ensures
        split_on(s, d) == seq![s],
    decreases s.len(),
{
    if s.len() == 0 {
        assert(s =~= Seq::<char>::empty());
        assert(split_on(s, d) =~= seq![s]);
    } else {
        lemma_not_contains_parts(s, d);
        lemma_split_on_no_delim(s.drop_last(), d);
        let rest = split_on(s.drop_last(), d);
        assert(rest == seq![s.drop_last()]);
        assert(rest.last() == s.drop_last());
        assert(rest.update(0, s.drop_last().push(s.last())) =~= seq![s.drop_last().push(s.last())]);
        assert(s.drop_last().push(s.last()) =~= s);
    }
}

proof fn lemma_split_on_append(s: Seq<char>, t: Seq<char>, d: char)
    requires
        !t.contains(d),
    ensures
        split_on(s + seq![d] + t, d) == split_on(s, d).push(t),
    decreases t.len(),
{
    if t.len() == 0 {
        let u = s + seq![d] + t;
        assert(u =~= s.push(d));
        assert(u.last() == d);
        assert(u.drop_last() =~= s);
        assert(t =~= Seq::<char>::empty());
        assert(split_on(u, d) == split_on(s, d).push(Seq::empty()));
    } else {
        lemma_not_contains_parts(t, d);
        lemma_split_on_append(s, t.drop_last(), d);
        let u = s + seq![d] + t;
        assert(u.last() == t.last());
        assert(u.last() != d);
        assert(u.drop_last() =~= s + seq![d] + t.drop_last());
        let rest = split_on(u.drop_last(), d);
        assert(rest == split_on(s, d).push(t.drop_last()));
        lemma_split_on_nonempty(s, d);
        assert(rest.last() == t.drop_last());
        assert(rest.len() == split_on(s, d).len() + 1);
        assert(split_on(u, d) == rest.update(rest.len() - 1, t.drop_last().push(t.last())));
        assert(t.drop_last().push(t.last()) =~= t);
        assert(rest.update(rest.len() - 1, t) =~= split_on(s, d).push(t));
    }
}

/// Round trip of the delimited format: splitting one rendered line on the
/// delimiter recovers exactly the record and the decimal count, provided the
/// record does not contain the delimiter and the delimiter is not a decimal
/// digit (the documented non-escaping limitation).
pub proof fn lemma_delimited_round_trip(record: Seq<char>, delim: char, count: nat)
    requires
        !record.contains(delim),
        !is_decimal_digit(delim),
    ensures
        split_on(delimited_line(record, delim, count), delim) == seq![record, dec_digits(count)],
{
    lemma_dec_digits_are_digits(count);
    assert(!dec_digits(count).contains(delim)) by {
        if dec_digits(count).contains(delim) {
            let j = choose|j: int|
                0 <= j < dec_digits(count).len() && dec_digits(count)[j] == delim;
            assert(is_decimal_digit(dec_digits(count)[j]));
        }
    }
    lemma_split_on_no_delim(record, delim);
    lemma_split_on_append(record, dec_digits(count), delim);
    assert(seq![record].push(dec_digits(count)) =~= seq![record, dec_digits(count)]);
}

/// Round trip of the whole delimited body: splitting every rendered entry
/// line on the delimiter recovers exactly the (record, count) pairs of the
/// entries, provided no record contains the delimiter and the delimiter is
/// not a decimal digit.
pub proof fn lemma_delimited_body_round_trip(entries: Seq<(Seq<char>, nat)>, delim: char)
    requires
        forall|i: int| 0 <= i < entries.len() ==> !(#[trigger] entries[i]).0.contains(delim),
        !is_decimal_digit(delim),
    ensures
        forall|i: int|
            0 <= i < entries.len() ==> split_on(
                #[trigger] delimited_body(entries, delim)[i],
                delim,
            ) == seq![entries[i].0, dec_digits(entries[i].1)],
{
    assert forall|i: int| 0 <= i < entries.len() implies split_on(
        #[trigger] delimited_body(entries, delim)[i],
        delim,
    ) == seq![entries[i].0, dec_digits(entries[i].1)] by {
        lemma_delimited_round_trip(entries[i].0, delim, entries[i].1);
    }
}

} // verus!
