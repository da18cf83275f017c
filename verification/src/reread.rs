//! AT&T text that was written reads back as the transducer it was written
//! from.

use crate::alphabet::{
    alphabet_of, lemma_alphabet, lemma_alphabet_of_symbols, may_precede, same_symbols, strict,
};
use crate::members::{lemma_built_finals, lemma_built_rows, lemma_built_rules};
use crate::att::{
    att_entries, att_rows, fields, fst_of_rows, heavy, line_end, line_row, next_line, rendered,
    row_finals, row_rules, row_symbols, rule_line, AttRowView,
};
use crate::error::KfstError;
use crate::rebuild::lemma_rebuild;
use crate::symbol::{symbol_of_text, SymbolView};
use crate::text::{
    decimal, is_digit, lemma_decimal, lemma_decimal_read, lemma_lex_asymmetric,
    lemma_lex_irreflexive, lemma_position_is, lex_lt, unsigned_value,
};
use crate::transducer::{flat_rules, FstView, RuleView};
use crate::weight::{weight_of_text, Weight};
use vstd::prelude::*;

verus! {

/// Whether a text can stand as a field of a line: it holds no tab, no line
/// feed and no carriage return.
pub open spec fn one_field(s: Seq<char>) -> bool {
    forall|k: int| 0 <= k < s.len() ==> s[k] != '\t' && s[k] != '\n' && s[k] != '\r'
}

/// Whether a text holds no line feed and no carriage return.
pub open spec fn one_line(s: Seq<char>) -> bool {
    forall|k: int| 0 <= k < s.len() ==> s[k] != '\n' && s[k] != '\r'
}

/// Fields with tabs between them.
pub open spec fn joined(parts: Seq<Seq<char>>) -> Seq<char>
    decreases parts.len(),
{
    if parts.len() == 0 {
        Seq::empty()
    } else if parts.len() == 1 {
        parts[0]
    } else {
        parts[0] + seq!['\t'] + joined(parts.drop_first())
    }
}

/// The symbols of a list of rules: of each rule the input symbol, then the
/// output symbol.
pub open spec fn rule_symbols(rules: Seq<RuleView>) -> Seq<SymbolView>
    decreases rules.len(),
{
    if rules.len() == 0 {
        Seq::empty()
    } else {
        rule_symbols(rules.drop_last()).push(rules.last().2).push(rules.last().3)
    }
}

/// A decimal numeral can stand as a field.
pub proof fn lemma_decimal_field(n: nat)
    ensures
        one_field(decimal(n)),
        decimal(n).len() > 0,
{
    lemma_decimal(n);
    let d = decimal(n);
    assert forall|k: int| 0 <= k < d.len() implies d[k] != '\t' && d[k] != '\n' && d[k]
        != '\r' by {
        assert(is_digit(d[k]));
    }
}

/// Fields that were joined by tabs are found again, and make one line.
pub proof fn lemma_fields_joined(parts: Seq<Seq<char>>)
    requires
        parts.len() >= 1,
        forall|i: int| 0 <= i < parts.len() ==> one_field(#[trigger] parts[i]),
    ensures
        fields(joined(parts)) == parts,
        one_line(joined(parts)),
        joined(parts).len() >= parts[0].len(),
    decreases parts.len(),
{
    let line = joined(parts);
    let first = parts[0];
    assert(one_field(first));
    if parts.len() == 1 {
        lemma_position_is(line, '\t', 0, line.len() as int);
        assert(seq![line] =~= parts);
    } else {
        let rest = parts.drop_first();
        assert forall|i: int| 0 <= i < rest.len() implies one_field(#[trigger] rest[i]) by {
            assert(rest[i] == parts[i + 1]);
        }
        lemma_fields_joined(rest);
        assert(line == first + seq!['\t'] + joined(rest));
        assert forall|j: int| 0 <= j < first.len() implies line[j] != '\t' by {
            assert(line[j] == first[j]);
        }
        assert(line[first.len() as int] == '\t');
        lemma_position_is(line, '\t', 0, first.len() as int);
        assert(line.subrange(0, first.len() as int) =~= first);
        assert(line.subrange(first.len() as int + 1, line.len() as int) =~= joined(rest));
        assert(seq![first] + rest =~= parts);
        assert forall|k: int| 0 <= k < line.len() implies line[k] != '\n' && line[k] != '\r' by {
            if k < first.len() {
                assert(line[k] == first[k]);
            } else if k > first.len() {
                assert(line[k] == joined(rest)[k - first.len() - 1]);
            }
        }
    }
}

/// The text of the `i`-th line: the line without its weight, and for a
/// weight other than zero a tab and its numeral.
pub open spec fn entry_line(entries: Seq<(Seq<char>, Weight)>, numerals: Seq<Seq<char>>, i: int)
    -> Seq<char> {
    if entries[i].1.is_zero() {
        entries[i].0
    } else {
        entries[i].0 + seq!['\t'] + numerals[heavy(entries.subrange(0, i)).len() as int]
    }
}

/// Where the `i`-th line begins in the text of the lines.
pub open spec fn line_start(entries: Seq<(Seq<char>, Weight)>, numerals: Seq<Seq<char>>, i: int)
    -> int {
    if i == 0 {
        0
    } else {
        rendered(entries.subrange(0, i), numerals).len() as int + 1
    }
}

/// The text of the first `i + 1` lines is the text of the first `i`, a line
/// feed where there are any, and the `i`-th line.
pub proof fn lemma_rendered_step(
    entries: Seq<(Seq<char>, Weight)>,
    numerals: Seq<Seq<char>>,
    i: int,
)
    requires
        0 <= i < entries.len(),
    ensures
        rendered(entries.subrange(0, i + 1), numerals) == if i == 0 {
            entry_line(entries, numerals, i)
        } else {
            rendered(entries.subrange(0, i), numerals) + seq!['\n'] + entry_line(
                entries,
                numerals,
                i,
            )
        },
{
    let next = entries.subrange(0, i + 1);
    assert(next.drop_last() =~= entries.subrange(0, i));
    assert(next.last() == entries[i]);
}

/// The text of the first `i` lines is the beginning of the text of all.
pub proof fn lemma_rendered_prefix(
    entries: Seq<(Seq<char>, Weight)>,
    numerals: Seq<Seq<char>>,
    i: int,
)
    requires
        0 <= i <= entries.len(),
    ensures
        rendered(entries.subrange(0, i), numerals).len() <= rendered(entries, numerals).len(),
        rendered(entries, numerals).subrange(
            0,
            rendered(entries.subrange(0, i), numerals).len() as int,
        ) == rendered(entries.subrange(0, i), numerals),
    decreases entries.len() - i,
{
    let whole = rendered(entries, numerals);
    if i < entries.len() {
        lemma_rendered_prefix(entries, numerals, i + 1);
        lemma_rendered_step(entries, numerals, i);
        let short = rendered(entries.subrange(0, i), numerals);
        let long = rendered(entries.subrange(0, i + 1), numerals);
        if i == 0 {
            assert(entries.subrange(0, 0) =~= Seq::empty());
            assert(short.len() == 0);
            assert(whole.subrange(0, 0) =~= short);
        } else {
            assert(whole.subrange(0, short.len() as int) =~= long.subrange(0, short.len() as int));
            assert(long.subrange(0, short.len() as int) =~= short);
        }
    } else {
        assert(entries.subrange(0, i) =~= entries);
        assert(whole.subrange(0, whole.len() as int) =~= whole);
    }
}

/// The weights other than zero of the first `i` lines are the first of the
/// weights other than zero of all the lines.
pub proof fn lemma_heavy_first(entries: Seq<(Seq<char>, Weight)>, i: int)
    requires
        0 <= i <= entries.len(),
    ensures
        heavy(entries.subrange(0, i)).len() <= heavy(entries).len(),
        heavy(entries).subrange(0, heavy(entries.subrange(0, i)).len() as int) == heavy(
            entries.subrange(0, i),
        ),
    decreases entries.len() - i,
{
    let whole = heavy(entries);
    if i < entries.len() {
        lemma_heavy_first(entries, i + 1);
        let next = entries.subrange(0, i + 1);
        assert(next.drop_last() =~= entries.subrange(0, i));
        let short = heavy(entries.subrange(0, i));
        let long = heavy(next);
        assert(whole.subrange(0, short.len() as int) =~= long.subrange(0, short.len() as int));
        assert(long.subrange(0, short.len() as int) =~= short);
    } else {
        assert(entries.subrange(0, i) =~= entries);
        assert(whole.subrange(0, whole.len() as int) =~= whole);
    }
}

/// Where the `i`-th line stands in the text of the lines: it runs from its
/// beginning to the next line feed or the end of the text, and the next
/// line begins behind that line feed.
pub proof fn lemma_line_place(
    entries: Seq<(Seq<char>, Weight)>,
    numerals: Seq<Seq<char>>,
    i: int,
)
    requires
        0 <= i < entries.len(),
        one_line(entry_line(entries, numerals, i)),
        entry_line(entries, numerals, i).len() > 0,
    ensures
        ({
            let text = rendered(entries, numerals);
            let from = line_start(entries, numerals, i);
            let end = from + entry_line(entries, numerals, i).len();
            &&& 0 <= from < end <= text.len()
            &&& text.subrange(from, end) == entry_line(entries, numerals, i)
            &&& line_end(text, from) == end
            &&& next_line(text, from) == if i + 1 < entries.len() {
                line_start(entries, numerals, i + 1)
            } else {
                text.len() as int
            }
            &&& i + 1 < entries.len() ==> line_start(entries, numerals, i + 1) <= text.len()
            &&& i + 1 == entries.len() ==> end == text.len()
        }),
{
    let n = entries.len() as int;
    let text = rendered(entries, numerals);
    let from = line_start(entries, numerals, i);
    lemma_rendered_prefix(entries, numerals, i);
    lemma_rendered_prefix(entries, numerals, i + 1);
    lemma_rendered_step(entries, numerals, i);
    let line = entry_line(entries, numerals, i);
    let long = rendered(entries.subrange(0, i + 1), numerals);
    let end = long.len() as int;
    assert(end == from + line.len());
    assert forall|k: int| 0 <= k < long.len() implies text[k] == long[k] by {
        assert(text.subrange(0, long.len() as int)[k] == text[k]);
    }
    assert forall|k: int| 0 <= k < line.len() implies text[from + k] == line[k] by {
        assert(text[from + k] == long[from + k]);
    }
    assert(text.subrange(from, end) =~= line);
    assert forall|j: int| from <= j < end implies text[j] != '\n' by {
        assert(text[j] == line[j - from]);
    }
    if i + 1 < n {
        lemma_rendered_step(entries, numerals, i + 1);
        lemma_rendered_prefix(entries, numerals, i + 2);
        let longer = rendered(entries.subrange(0, i + 2), numerals);
        assert(longer[end] == '\n');
        assert(text.subrange(0, longer.len() as int)[end] == text[end]);
        assert(text[end] == '\n');
    } else {
        assert(entries.subrange(0, i + 1) =~= entries);
        assert(end == text.len());
    }
    lemma_position_is(text, '\n', from, end);
    assert(text[end - 1] != '\r') by {
        assert(text[end - 1] == line[line.len() - 1]);
    }
}

/// Where every line of the text says its row, reading the text from the
/// beginning of the `i`-th line on gives the rows from the `i`-th on.
pub proof fn lemma_lines_read(
    entries: Seq<(Seq<char>, Weight)>,
    numerals: Seq<Seq<char>>,
    rows: Seq<AttRowView>,
    i: int,
)
    requires
        rows.len() == entries.len(),
        0 <= i < entries.len(),
        forall|k: int|
            0 <= k < entries.len() ==> {
                &&& one_line(#[trigger] entry_line(entries, numerals, k))
                &&& entry_line(entries, numerals, k).len() > 0
                &&& line_row(entry_line(entries, numerals, k)) == Some(Some(rows[k]))
            },
    ensures
        att_rows(
            rendered(entries, numerals),
            line_start(entries, numerals, i),
            i as nat,
        ) == Ok::<Seq<AttRowView>, KfstError>(rows.subrange(i, rows.len() as int)),
    decreases entries.len() - i,
{
    let n = entries.len() as int;
    let text = rendered(entries, numerals);
    let from = line_start(entries, numerals, i);
    let line = entry_line(entries, numerals, i);
    assert(one_line(line) && line.len() > 0 && line_row(line) == Some(Some(rows[i])));
    lemma_line_place(entries, numerals, i);
    let next = next_line(text, from);
    let rest = rows.subrange(i + 1, n);
    assert(seq![rows[i]] + rest =~= rows.subrange(i, n));
    if i + 1 < n {
        lemma_lines_read(entries, numerals, rows, i + 1);
        assert(att_rows(text, next, (i + 1) as nat) == Ok::<Seq<AttRowView>, KfstError>(rest));
    } else {
        assert(rest =~= Seq::empty());
        assert(att_rows(text, next, (i + 1) as nat) == Ok::<Seq<AttRowView>, KfstError>(rest));
    }
}

/// The rows that are written for a transducer: its final states, then its
/// rules.
pub open spec fn rows_of(fst: FstView) -> Seq<AttRowView> {
    let rules = flat_rules(fst.rules);
    Seq::new(fst.finals.len(), |i: int| Ok::<(u64, Weight), RuleView>(fst.finals[i])) + Seq::new(
        rules.len(),
        |i: int| Err::<(u64, Weight), RuleView>(rules[i]),
    )
}

/// The final states among final states followed by rules are those final
/// states, the rules those rules, and the symbols the symbols of those
/// rules.
pub proof fn lemma_rows_parts(finals: Seq<(u64, Weight)>, rules: Seq<RuleView>, m: int)
    requires
        0 <= m <= rules.len(),
    ensures
        ({
            let rows = Seq::new(finals.len(), |i: int| Ok::<(u64, Weight), RuleView>(finals[i]))
                + Seq::new(m as nat, |i: int| Err::<(u64, Weight), RuleView>(rules[i]));
            &&& row_finals(rows) == finals
            &&& row_rules(rows) == rules.subrange(0, m)
            &&& row_symbols(rows) == rule_symbols(rules.subrange(0, m))
        }),
    decreases m,
{
    let front = Seq::new(finals.len(), |i: int| Ok::<(u64, Weight), RuleView>(finals[i]));
    let rows = front + Seq::new(m as nat, |i: int| Err::<(u64, Weight), RuleView>(rules[i]));
    if m > 0 {
        lemma_rows_parts(finals, rules, m - 1);
        let before = front + Seq::new(
            (m - 1) as nat,
            |i: int| Err::<(u64, Weight), RuleView>(rules[i]),
        );
        assert(rows.drop_last() =~= before);
        assert(rows.last() == Err::<(u64, Weight), RuleView>(rules[m - 1]));
        assert(rules.subrange(0, m).drop_last() =~= rules.subrange(0, m - 1));
        assert(rules.subrange(0, m).last() == rules[m - 1]);
        assert(rules.subrange(0, m - 1).push(rules[m - 1]) =~= rules.subrange(0, m));
    } else {
        assert(rows =~= front);
        lemma_front_parts(finals, finals.len() as int);
        assert(finals.subrange(0, finals.len() as int) =~= finals);
        assert(rules.subrange(0, 0) =~= Seq::empty());
    }
}

/// The same, of the first `k` final states alone.
pub proof fn lemma_front_parts(finals: Seq<(u64, Weight)>, k: int)
    requires
        0 <= k <= finals.len(),
    ensures
        ({
            let rows = Seq::new(k as nat, |i: int| Ok::<(u64, Weight), RuleView>(finals[i]));
            &&& row_finals(rows) == finals.subrange(0, k)
            &&& row_rules(rows) == Seq::<RuleView>::empty()
            &&& row_symbols(rows) == Seq::<SymbolView>::empty()
        }),
    decreases k,
{
    let rows = Seq::new(k as nat, |i: int| Ok::<(u64, Weight), RuleView>(finals[i]));
    if k > 0 {
        lemma_front_parts(finals, k - 1);
        let before = Seq::new((k - 1) as nat, |i: int| Ok::<(u64, Weight), RuleView>(finals[i]));
        assert(rows.drop_last() =~= before);
        assert(rows.last() == Ok::<(u64, Weight), RuleView>(finals[k - 1]));
        assert(finals.subrange(0, k - 1).push(finals[k - 1]) =~= finals.subrange(0, k));
    } else {
        assert(finals.subrange(0, 0) =~= Seq::empty());
    }
}

/// Whether AT&T text holds the transducer without loss, written with the
/// given numerals: its parts are valid; its alphabet is the alphabet of the
/// symbols of its rules; the text of each symbol of a rule can stand as a
/// field and denotes that symbol; every weight that is zero is the positive
/// zero; and there is a numeral for each other weight, which can stand as a
/// field and denotes that weight.
pub open spec fn writable(fst: FstView, numerals: Seq<Seq<char>>) -> bool {
    let rules = flat_rules(fst.rules);
    let weights = heavy(att_entries(fst));
    &&& fst.valid()
    &&& fst.alphabet == alphabet_of(rule_symbols(rules))
    &&& forall|i: int|
        0 <= i < rules.len() ==> {
            &&& one_field((#[trigger] rules[i]).2.text())
            &&& one_field(rules[i].3.text())
            &&& symbol_of_text(rules[i].2.text()) == Some(rules[i].2)
            &&& symbol_of_text(rules[i].3.text()) == Some(rules[i].3)
            &&& rules[i].4.is_zero() ==> rules[i].4.bits == 0
        }
    &&& forall|i: int|
        0 <= i < fst.finals.len() ==> ((#[trigger] fst.finals[i]).1.is_zero() ==> fst.finals[i].1.bits
            == 0)
    &&& numerals.len() == weights.len()
    &&& forall|k: int|
        0 <= k < numerals.len() ==> one_field(#[trigger] numerals[k]) && weight_of_text(numerals[k])
            == Some(weights[k])
}

/// The line of a final state is one line, is not empty, and says the final
/// state.
pub proof fn lemma_final_line(node: u64, w: Weight, numeral: Seq<char>)
    requires
        w.is_zero() ==> w.bits == 0,
        !w.is_zero() ==> one_field(numeral) && weight_of_text(numeral) == Some(w),
    ensures
        ({
            let line = if w.is_zero() {
                decimal(node as nat)
            } else {
                decimal(node as nat) + seq!['\t'] + numeral
            };
            &&& one_line(line)
            &&& line.len() > 0
            &&& line_row(line) == Some(Some(Ok::<(u64, Weight), RuleView>((node, w))))
        }),
{
    let line = if w.is_zero() {
        decimal(node as nat)
    } else {
        decimal(node as nat) + seq!['\t'] + numeral
    };
    lemma_decimal_field(node as nat);
    lemma_decimal_read(node);
    let parts = if w.is_zero() {
        seq![decimal(node as nat)]
    } else {
        seq![decimal(node as nat), numeral]
    };
    assert(joined(parts) =~= line) by {
        reveal_with_fuel(joined, 3);
        if !w.is_zero() {
            assert(parts.drop_first() =~= seq![numeral]);
        }
    }
    lemma_fields_joined(parts);
}

/// The fields of the line of a rule.
pub open spec fn rule_parts(rule: RuleView, numeral: Seq<char>) -> Seq<Seq<char>> {
    let base = seq![decimal(rule.0 as nat), decimal(rule.1 as nat), rule.2.text(), rule.3.text()];
    if rule.4.is_zero() {
        base
    } else {
        base.push(numeral)
    }
}

/// The line of a rule, with its weight where that is not zero.
pub open spec fn full_rule_line(rule: RuleView, numeral: Seq<char>) -> Seq<char> {
    if rule.4.is_zero() {
        rule_line(rule)
    } else {
        rule_line(rule) + seq!['\t'] + numeral
    }
}

/// The line of a rule is its fields with tabs between them.
pub proof fn lemma_rule_joined(rule: RuleView, numeral: Seq<char>)
    ensures
        joined(rule_parts(rule, numeral)) == full_rule_line(rule, numeral),
{
    let parts = rule_parts(rule, numeral);
    let line = full_rule_line(rule, numeral);
    reveal_with_fuel(joined, 6);
    let from_second = parts.drop_first();
    let from_third = from_second.drop_first();
    let from_fourth = from_third.drop_first();
    assert(from_second[0] == decimal(rule.1 as nat));
    assert(from_third[0] == rule.2.text());
    assert(from_fourth[0] == rule.3.text());
    if rule.4.is_zero() {
        assert(from_fourth.len() == 1);
    } else {
        let from_fifth = from_fourth.drop_first();
        assert(from_fifth.len() == 1);
        assert(from_fifth[0] == numeral);
    }
    assert(joined(parts) =~= line);
}

/// A line of four or five fields that denote two states, two symbols and a
/// weight says the rule of these.
pub proof fn lemma_rule_said(line: Seq<char>, rule: RuleView)
    requires
        fields(line).len() == 4 || fields(line).len() == 5,
        unsigned_value(fields(line)[0]) == Some(rule.0),
        unsigned_value(fields(line)[1]) == Some(rule.1),
        symbol_of_text(fields(line)[2]) == Some(rule.2),
        symbol_of_text(fields(line)[3]) == Some(rule.3),
        fields(line).len() == 4 ==> rule.4.bits == 0,
        fields(line).len() == 5 ==> weight_of_text(fields(line)[4]) == Some(rule.4),
    ensures
        line_row(line) == Some(Some(Err::<(u64, Weight), RuleView>(rule))),
{
}

/// The line of a rule is one line, is not empty, and says the rule.
pub proof fn lemma_rule_line(rule: RuleView, numeral: Seq<char>)
    requires
        one_field(rule.2.text()),
        one_field(rule.3.text()),
        symbol_of_text(rule.2.text()) == Some(rule.2),
        symbol_of_text(rule.3.text()) == Some(rule.3),
        rule.4.is_zero() ==> rule.4.bits == 0,
        !rule.4.is_zero() ==> one_field(numeral) && weight_of_text(numeral) == Some(rule.4),
    ensures
        one_line(full_rule_line(rule, numeral)),
        full_rule_line(rule, numeral).len() > 0,
        line_row(full_rule_line(rule, numeral)) == Some(
            Some(Err::<(u64, Weight), RuleView>(rule)),
        ),
{
    let line = full_rule_line(rule, numeral);
    let parts = rule_parts(rule, numeral);
    lemma_decimal_field(rule.0 as nat);
    lemma_decimal_field(rule.1 as nat);
    lemma_decimal_read(rule.0);
    lemma_decimal_read(rule.1);
    lemma_rule_joined(rule, numeral);
    assert forall|i: int| 0 <= i < parts.len() implies one_field(#[trigger] parts[i]) by {
        if i == 0 {
        } else if i == 1 {
        } else if i == 2 {
        } else if i == 3 {
        } else {
        }
    }
    lemma_fields_joined(parts);
    assert(fields(line) == parts);
    assert(parts[0] == decimal(rule.0 as nat));
    assert(parts[1] == decimal(rule.1 as nat));
    assert(parts[2] == rule.2.text());
    assert(parts[3] == rule.3.text());
    if !rule.4.is_zero() {
        assert(parts[4] == numeral);
    }
    lemma_rule_said(line, rule);
}

/// The `i`-th line of the text of a transducer is one line, is not empty,
/// and says the `i`-th row.
pub proof fn lemma_entry_read(fst: FstView, numerals: Seq<Seq<char>>, i: int)
    requires
        writable(fst, numerals),
        0 <= i < att_entries(fst).len(),
    ensures
        one_line(entry_line(att_entries(fst), numerals, i)),
        entry_line(att_entries(fst), numerals, i).len() > 0,
        line_row(entry_line(att_entries(fst), numerals, i)) == Some(Some(rows_of(fst)[i])),
{
    let entries = att_entries(fst);
    let rules = flat_rules(fst.rules);
    let nf = fst.finals.len() as int;
    let w = entries[i].1;
    let k = heavy(entries.subrange(0, i)).len() as int;
    lemma_heavy_first(entries, i + 1);
    let next = entries.subrange(0, i + 1);
    assert(next.drop_last() =~= entries.subrange(0, i));
    assert(next.last() == entries[i]);
    if !w.is_zero() {
        assert(heavy(next) == heavy(entries.subrange(0, i)).push(w));
        assert(heavy(entries).subrange(0, k + 1)[k] == heavy(next)[k]);
        assert(heavy(entries)[k] == w);
        assert(one_field(numerals[k]) && weight_of_text(numerals[k]) == Some(w));
    }
    if i < nf {
        assert(entries[i] == (decimal(fst.finals[i].0 as nat), fst.finals[i].1));
        lemma_final_line(fst.finals[i].0, w, numerals[k]);
        assert(rows_of(fst)[i] == Ok::<(u64, Weight), RuleView>(fst.finals[i]));
    } else {
        let rule = rules[i - nf];
        assert(entries[i] == (rule_line(rule), rule.4));
        assert(one_field(rule.2.text()) && one_field(rule.3.text()));
        lemma_rule_line(rule, numerals[k]);
        assert(entry_line(entries, numerals, i) == full_rule_line(rule, numerals[k]));
        assert(rows_of(fst)[i] == Err::<(u64, Weight), RuleView>(rule));
    }
}

/// AT&T round trip: the text that is written for a transducer which AT&T
/// text holds without loss reads back as that transducer, with the same
/// final states, the same rules and the same alphabet.
pub proof fn lemma_att_round_trip(fst: FstView, numerals: Seq<Seq<char>>)
    requires
        writable(fst, numerals),
    ensures
        att_rows(rendered(att_entries(fst), numerals), 0, 0) == Ok::<Seq<AttRowView>, KfstError>(
            rows_of(fst),
        ),
        fst_of_rows(rows_of(fst)) == fst,
{
    let entries = att_entries(fst);
    let rows = rows_of(fst);
    let rules = flat_rules(fst.rules);
    assert forall|k: int| 0 <= k < entries.len() implies {
        &&& one_line(#[trigger] entry_line(entries, numerals, k))
        &&& entry_line(entries, numerals, k).len() > 0
        &&& line_row(entry_line(entries, numerals, k)) == Some(Some(rows[k]))
    } by {
        lemma_entry_read(fst, numerals, k);
    }
    assert(rows.len() == entries.len());
    if entries.len() > 0 {
        lemma_lines_read(entries, numerals, rows, 0);
        assert(line_start(entries, numerals, 0) == 0);
        assert(rows.subrange(0, rows.len() as int) =~= rows);
    } else {
        assert(rows =~= Seq::empty());
        assert(rendered(entries, numerals).len() == 0);
    }
    lemma_rows_parts(fst.finals, rules, rules.len() as int);
    assert(rules.subrange(0, rules.len() as int) =~= rules);
    assert(Seq::new(rules.len(), |i: int| Err::<(u64, Weight), RuleView>(rules[i])) =~= Seq::new(
        rules.len() as int as nat,
        |i: int| Err::<(u64, Weight), RuleView>(rules[i]),
    ));
    lemma_rebuild(fst);
}

/// Whether a rule of the list has `s` as its input symbol or as its output
/// symbol.
pub open spec fn names(rules: Seq<RuleView>, s: SymbolView) -> bool {
    exists|i: int| 0 <= i < rules.len() && ((#[trigger] rules[i]).2 == s || rules[i].3 == s)
}

/// The symbols of a list of rules are the symbols that its rules name.
pub proof fn lemma_rule_symbols_members(rules: Seq<RuleView>, s: SymbolView)
    ensures
        rule_symbols(rules).contains(s) <==> names(rules, s),
    decreases rules.len(),
{
    let all = rule_symbols(rules);
    if rules.len() > 0 {
        let head = rules.drop_last();
        let last = rules.last();
        lemma_rule_symbols_members(head, s);
        let before = rule_symbols(head);
        assert(all == before.push(last.2).push(last.3));
        assert(rules[rules.len() - 1] == last);
        if all.contains(s) {
            let k = choose|k: int| 0 <= k < all.len() && all[k] == s;
            if k < before.len() {
                assert(before[k] == s);
                assert(before.contains(s));
                let i = choose|i: int|
                    0 <= i < head.len() && ((#[trigger] head[i]).2 == s || head[i].3 == s);
                assert(rules[i] == head[i]);
            }
        }
        if names(rules, s) {
            let i = choose|i: int|
                0 <= i < rules.len() && ((#[trigger] rules[i]).2 == s || rules[i].3 == s);
            if i < head.len() {
                assert(head[i] == rules[i]);
                assert(names(head, s));
                let k = choose|k: int| 0 <= k < before.len() && before[k] == s;
                assert(all[k] == s);
            } else {
                assert(all[before.len() as int] == last.2);
                assert(all[before.len() as int + 1] == last.3);
            }
        }
    } else {
        if all.contains(s) {
            let k = choose|k: int| 0 <= k < all.len() && all[k] == s;
        }
    }
}

/// The symbols of the rows are the symbols of their rules.
pub proof fn lemma_row_symbols(rows: Seq<AttRowView>)
    ensures
        row_symbols(rows) == rule_symbols(row_rules(rows)),
    decreases rows.len(),
{
    if rows.len() > 0 {
        lemma_row_symbols(rows.drop_last());
        match rows.last() {
            Ok(_) => {},
            Err(r) => {
                let rules = row_rules(rows);
                assert(rules.drop_last() =~= row_rules(rows.drop_last()));
                assert(rules.last() == r);
            },
        }
    }
}

/// The rules among the rows are rules of rows, and the final states among
/// them final states of rows.
pub proof fn lemma_row_members(rows: Seq<AttRowView>)
    ensures
        forall|i: int|
            0 <= i < row_rules(rows).len() ==> rows.contains(
                Err::<(u64, Weight), RuleView>(#[trigger] row_rules(rows)[i]),
            ),
        forall|i: int|
            0 <= i < row_finals(rows).len() ==> rows.contains(
                Ok::<(u64, Weight), RuleView>(#[trigger] row_finals(rows)[i]),
            ),
    decreases rows.len(),
{
    if rows.len() > 0 {
        let head = rows.drop_last();
        lemma_row_members(head);
        assert(rows[rows.len() - 1] == rows.last());
        assert forall|i: int| 0 <= i < row_rules(rows).len() implies rows.contains(
            Err::<(u64, Weight), RuleView>(#[trigger] row_rules(rows)[i]),
        ) by {
            if i < row_rules(head).len() {
                assert(row_rules(rows)[i] == row_rules(head)[i]);
                let y = Err::<(u64, Weight), RuleView>(row_rules(head)[i]);
                assert(head.contains(y));
                let k = choose|k: int| 0 <= k < head.len() && head[k] == y;
                assert(rows[k] == y);
            }
        }
        assert forall|i: int| 0 <= i < row_finals(rows).len() implies rows.contains(
            Ok::<(u64, Weight), RuleView>(#[trigger] row_finals(rows)[i]),
        ) by {
            if i < row_finals(head).len() {
                assert(row_finals(rows)[i] == row_finals(head)[i]);
                let y = Ok::<(u64, Weight), RuleView>(row_finals(head)[i]);
                assert(head.contains(y));
                let k = choose|k: int| 0 <= k < head.len() && head[k] == y;
                assert(rows[k] == y);
            }
        }
    }
}

/// Whether rows can be written without loss: the text of each symbol of a
/// rule can stand as a field and denotes that symbol, and every weight that
/// is zero is the positive zero.
pub open spec fn plain_rows(rows: Seq<AttRowView>) -> bool {
    forall|i: int|
        0 <= i < rows.len() ==> match #[trigger] rows[i] {
            Ok(f) => f.1.is_zero() ==> f.1.bits == 0,
            Err(r) => {
                &&& one_field(r.2.text())
                &&& one_field(r.3.text())
                &&& symbol_of_text(r.2.text()) == Some(r.2)
                &&& symbol_of_text(r.3.text()) == Some(r.3)
                &&& r.4.is_zero() ==> r.4.bits == 0
            },
        }
}

/// Symbols that their own texts denote are told apart by the order of the
/// alphabet.
pub proof fn lemma_denoted_strict(a: SymbolView, b: SymbolView)
    requires
        symbol_of_text(a.text()) == Some(a),
        symbol_of_text(b.text()) == Some(b),
        may_precede(a, b),
        may_precede(b, a),
    ensures
        a == b,
{
    lemma_lex_asymmetric_texts(a.text(), b.text());
}

proof fn lemma_lex_asymmetric_texts(a: Seq<char>, b: Seq<char>)
    ensures
        !(lex_lt(a, b) && lex_lt(b, a)),
        !lex_lt(a, a),
{
    if lex_lt(a, b) {
        lemma_lex_asymmetric(a, b, 0);
    }
    lemma_lex_irreflexive(a, 0);
}

/// AT&T round trip of what was read: the transducer that is made of rows
/// that can be written without loss is held by AT&T text without loss, so
/// that the text written for it reads back as the same transducer.
pub proof fn lemma_read_writable(rows: Seq<AttRowView>, numerals: Seq<Seq<char>>)
    requires
        plain_rows(rows),
        numerals.len() == heavy(att_entries(fst_of_rows(rows))).len(),
        forall|k: int|
            0 <= k < numerals.len() ==> one_field(#[trigger] numerals[k]) && weight_of_text(
                numerals[k],
            ) == Some(heavy(att_entries(fst_of_rows(rows)))[k]),
    ensures
        writable(fst_of_rows(rows), numerals),
        att_rows(
            rendered(att_entries(fst_of_rows(rows)), numerals),
            0,
            0,
        ) matches Ok(again) && fst_of_rows(again) == fst_of_rows(rows),
{
    let fst = fst_of_rows(rows);
    let given = row_rules(rows);
    let flat = flat_rules(fst.rules);
    lemma_built_finals(row_finals(rows));
    lemma_built_rows(given);
    lemma_alphabet(row_symbols(rows));
    lemma_row_symbols(rows);
    lemma_row_members(rows);
    assert forall|i: int| 0 <= i < flat.len() implies {
        &&& one_field((#[trigger] flat[i]).2.text())
        &&& one_field(flat[i].3.text())
        &&& symbol_of_text(flat[i].2.text()) == Some(flat[i].2)
        &&& symbol_of_text(flat[i].3.text()) == Some(flat[i].3)
        &&& flat[i].4.is_zero() ==> flat[i].4.bits == 0
    } by {
        lemma_built_rules(given, flat[i]);
        assert(flat.contains(flat[i]));
        let k = choose|k: int| 0 <= k < given.len() && given[k] == flat[i];
        let y = Err::<(u64, Weight), RuleView>(given[k]);
        assert(rows.contains(y));
        let m = choose|m: int| 0 <= m < rows.len() && rows[m] == y;
        assert(rows[m] == y);
    }
    assert forall|i: int|
        0 <= i < fst.finals.len() && (#[trigger] fst.finals[i]).1.is_zero() implies fst.finals[i].1.bits
            == 0 by {
        assert(row_finals(rows).contains(fst.finals[i]));
        let k = choose|k: int| 0 <= k < row_finals(rows).len() && row_finals(rows)[k] == fst.finals[i];
        let y = Ok::<(u64, Weight), RuleView>(row_finals(rows)[k]);
        assert(rows.contains(y));
        let m = choose|m: int| 0 <= m < rows.len() && rows[m] == y;
        assert(rows[m] == y);
    }
    let a = rule_symbols(given);
    let b = rule_symbols(flat);
    assert(same_symbols(a, b)) by {
        assert forall|s: SymbolView| a.contains(s) <==> b.contains(s) by {
            lemma_rule_symbols_members(given, s);
            lemma_rule_symbols_members(flat, s);
            if names(given, s) {
                let i = choose|i: int|
                    0 <= i < given.len() && ((#[trigger] given[i]).2 == s || given[i].3 == s);
                lemma_built_rules(given, given[i]);
                assert(given.contains(given[i]));
                let k = choose|k: int| 0 <= k < flat.len() && flat[k] == given[i];
                assert(flat[k].2 == s || flat[k].3 == s);
            }
            if names(flat, s) {
                let i = choose|i: int|
                    0 <= i < flat.len() && ((#[trigger] flat[i]).2 == s || flat[i].3 == s);
                lemma_built_rules(given, flat[i]);
                assert(flat.contains(flat[i]));
                let k = choose|k: int| 0 <= k < given.len() && given[k] == flat[i];
                assert(given[k].2 == s || given[k].3 == s);
            }
        }
    }
    assert(strict(a)) by {
        assert forall|i: int, j: int|
            0 <= i < a.len() && 0 <= j < a.len() && may_precede(#[trigger] a[i], #[trigger] a[j])
                && may_precede(a[j], a[i]) implies a[i] == a[j] by {
            lemma_rule_symbols_members(given, a[i]);
            lemma_rule_symbols_members(given, a[j]);
            assert(a.contains(a[i]));
            assert(a.contains(a[j]));
            let p = choose|p: int|
                0 <= p < given.len() && ((#[trigger] given[p]).2 == a[i] || given[p].3 == a[i]);
            let q = choose|q: int|
                0 <= q < given.len() && ((#[trigger] given[q]).2 == a[j] || given[q].3 == a[j]);
            let yp = Err::<(u64, Weight), RuleView>(given[p]);
            let yq = Err::<(u64, Weight), RuleView>(given[q]);
            assert(rows.contains(yp));
            assert(rows.contains(yq));
            let mp = choose|m: int| 0 <= m < rows.len() && rows[m] == yp;
            let mq = choose|m: int| 0 <= m < rows.len() && rows[m] == yq;
            assert(rows[mp] == yp);
            assert(rows[mq] == yq);
            lemma_denoted_strict(a[i], a[j]);
        }
    }
    lemma_alphabet_of_symbols(a, b);
    assert(fst.valid());
    assert(writable(fst, numerals));
    lemma_att_round_trip(fst, numerals);
}

} // verus!
