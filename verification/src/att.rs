//! The AT&T text format. Each line is a row of fields separated by tabs: a
//! final state with an optional weight, or a transition with its source
//! state, target state, input symbol, output symbol and an optional weight.

use crate::alphabet::{alphabet_of, views};
use crate::error::KfstError;
use crate::symbol::{read_symbol, symbol_of_text, Symbol, SymbolView};
use crate::text::{
    append_chars, chars_of, decimal, find_in, lemma_position_from, parse_unsigned, position_from,
    push_decimal, slice_chars, string_of, unsigned_value,
};
use crate::lookup::item_views;
use crate::transducer::{
    finals_of, flat_rules, rule_views, rules_of, FstView, RuleView, FST,
};
use crate::weight::{parse_weight, weight_of_text, Weight};
use vstd::prelude::*;

verus! {

/// A row of AT&T text: a final state with its weight, or a rule.
pub type AttRowView = Result<(u64, Weight), RuleView>;

/// What a list of rows is.
pub open spec fn att_row_views(
    rows: Seq<Result<(u64, Weight), (u64, u64, Symbol, Symbol, Weight)>>,
) -> Seq<AttRowView> {
    Seq::new(
        rows.len(),
        |i: int|
            match rows[i] {
                Ok(f) => Ok(f),
                Err(r) => Err((r.0, r.1, r.2@, r.3@, r.4)),
            },
    )
}

/// The final states among the rows, in order.
pub open spec fn row_finals(rows: Seq<AttRowView>) -> Seq<(u64, Weight)>
    decreases rows.len(),
{
    if rows.len() == 0 {
        Seq::empty()
    } else {
        match rows.last() {
            Ok(f) => row_finals(rows.drop_last()).push(f),
            Err(_) => row_finals(rows.drop_last()),
        }
    }
}

/// The rules among the rows, in order.
pub open spec fn row_rules(rows: Seq<AttRowView>) -> Seq<RuleView>
    decreases rows.len(),
{
    if rows.len() == 0 {
        Seq::empty()
    } else {
        match rows.last() {
            Ok(_) => row_rules(rows.drop_last()),
            Err(r) => row_rules(rows.drop_last()).push(r),
        }
    }
}

/// The symbols of the rules among the rows: of each rule the input symbol,
/// then the output symbol.
pub open spec fn row_symbols(rows: Seq<AttRowView>) -> Seq<SymbolView>
    decreases rows.len(),
{
    if rows.len() == 0 {
        Seq::empty()
    } else {
        match rows.last() {
            Ok(_) => row_symbols(rows.drop_last()),
            Err(r) => row_symbols(rows.drop_last()).push(r.2).push(r.3),
        }
    }
}

/// The transducer that a list of rows describes.
pub open spec fn fst_of_rows(rows: Seq<AttRowView>) -> FstView {
    FstView {
        finals: finals_of(row_finals(rows)),
        rules: rules_of(row_rules(rows)),
        alphabet: alphabet_of(row_symbols(rows)),
    }
}

/// The fields of a line: the parts between its tabs.
pub open spec fn fields(line: Seq<char>) -> Seq<Seq<char>>
    decreases line.len(),
{
    let t = position_from(line, '\t', 0);
    if 0 <= t < line.len() {
        seq![line.subrange(0, t)] + fields(line.subrange(t + 1, line.len() as int))
    } else {
        seq![line]
    }
}

/// What a line says. A line of one or two fields is a final state and a
/// line of four or five fields a rule; the last of two or of five fields is
/// the weight, which is zero where the field is missing. Such a line is
/// malformed (`None`) where a state is no unsigned decimal numeral, a symbol
/// field denotes no symbol, or the weight field denotes no weight. A line
/// with any other number of fields says nothing (`Some(None)`).
pub open spec fn line_row(line: Seq<char>) -> Option<Option<AttRowView>> {
    let f = fields(line);
    if f.len() == 1 || f.len() == 2 {
        let w = if f.len() == 1 {
            Some(Weight { bits: 0 })
        } else {
            weight_of_text(f[1])
        };
        match (unsigned_value(f[0]), w) {
            (Some(node), Some(weight)) => Some(Some(Ok((node, weight)))),
            _ => None,
        }
    } else if f.len() == 4 || f.len() == 5 {
        let w = if f.len() == 4 {
            Some(Weight { bits: 0 })
        } else {
            weight_of_text(f[4])
        };
        match (
            unsigned_value(f[0]),
            unsigned_value(f[1]),
            symbol_of_text(f[2]),
            symbol_of_text(f[3]),
            w,
        ) {
            (Some(source), Some(target), Some(top), Some(bottom), Some(weight)) => Some(
                Some(Err((source, target, top, bottom, weight))),
            ),
            _ => None,
        }
    } else {
        Some(None)
    }
}

/// Where the line that begins at `from` ends: before the next line feed, or
/// before a carriage return that stands directly before that line feed, or
/// at the end of the text.
pub open spec fn line_end(s: Seq<char>, from: int) -> int {
    let feed = position_from(s, '\n', from);
    if from < feed < s.len() && s[feed - 1] == '\r' {
        feed - 1
    } else {
        feed
    }
}

/// Where the line after the one that begins at `from` begins.
pub open spec fn next_line(s: Seq<char>, from: int) -> int {
    let feed = position_from(s, '\n', from);
    if feed < s.len() {
        feed + 1
    } else {
        s.len() as int
    }
}

/// The rows of the text from position `from` on, where the line that begins
/// there has the number `number`; or the error of the first malformed line.
pub open spec fn att_rows(s: Seq<char>, from: int, number: nat) -> Result<
    Seq<AttRowView>,
    KfstError,
>
    decreases s.len() - from,
{
    if from >= s.len() || from < 0 {
        Ok(Seq::empty())
    } else {
        let next = next_line(s, from);
        match line_row(s.subrange(from, line_end(s, from))) {
            None => Err(KfstError::AttLine { line: number as usize }),
            Some(row) => if from < next <= s.len() {
                match att_rows(s, next, number + 1) {
                    Ok(rest) => Ok(
                        match row {
                            Some(r) => seq![r] + rest,
                            None => rest,
                        },
                    ),
                    Err(e) => Err(e),
                }
            } else {
                Ok(Seq::empty())
            },
        }
    }
}

/// What a list of texts is.
pub open spec fn text_views(s: Seq<Vec<char>>) -> Seq<Seq<char>> {
    Seq::new(s.len(), |i: int| s[i]@)
}

/// Splits a line into its fields.
pub fn split_fields(line: &Vec<char>) -> (r: Vec<Vec<char>>)
    ensures
        text_views(r@) == fields(line@),
{
    let n = line.len();
    let mut r: Vec<Vec<char>> = Vec::new();
    let mut from: usize = 0;
    assert(line@.subrange(0, n as int) == line@);
    assert(text_views(r@) + fields(line@) =~= fields(line@));
    loop
        invariant
            from <= n,
            n == line.len(),
            fields(line@) == text_views(r@) + fields(line@.subrange(from as int, n as int)),
        decreases n - from,
    {
        let ghost rest = line@.subrange(from as int, n as int);
        let ghost before = text_views(r@);
        let t = find_in(line, '\t', from, n);
        if t < n {
            r.push(slice_chars(line, from, t));
            assert(rest.subrange(0, t - from) == line@.subrange(from as int, t as int));
            assert(rest.subrange(t - from + 1, rest.len() as int) == line@.subrange(
                t + 1,
                n as int,
            ));
            assert(text_views(r@) + fields(line@.subrange(t + 1, n as int)) =~= before + fields(
                rest,
            ));
            from = t + 1;
        } else {
            r.push(slice_chars(line, from, n));
            assert(text_views(r@) =~= before + fields(rest));
            return r;
        }
    }
}

fn field_number(field: &Vec<char>) -> (r: Option<u64>)
    ensures
        r == unsigned_value(field@),
{
    assert(field@.subrange(0, field.len() as int) == field@);
    parse_unsigned(field, 0, field.len())
}

/// Reads a line.
pub fn read_line(line: &Vec<char>) -> (r: Option<
    Option<Result<(u64, Weight), (u64, u64, Symbol, Symbol, Weight)>>,
>)
    ensures
        match r {
            None => line_row(line@) is None,
            Some(None) => line_row(line@) == Some(None::<AttRowView>),
            Some(Some(Ok(f))) => line_row(line@) == Some(Some(Ok::<(u64, Weight), RuleView>(f))),
            Some(Some(Err(t))) => line_row(line@) == Some(
                Some(Err::<(u64, Weight), RuleView>((t.0, t.1, t.2@, t.3@, t.4))),
            ),
        },
{
    let f = split_fields(line);
    let ghost fv = fields(line@);
    let count = f.len();
    if count == 1 || count == 2 {
        assert(fv[0] == f@[0]@);
        let node = field_number(&f[0]);
        let weight = if count == 1 {
            Some(Weight::zero())
        } else {
            assert(fv[1] == f@[1]@);
            parse_weight(&f[1])
        };
        match (node, weight) {
            (Some(n), Some(w)) => Some(Some(Ok((n, w)))),
            _ => None,
        }
    } else if count == 4 || count == 5 {
        assert(fv[0] == f@[0]@);
        assert(fv[1] == f@[1]@);
        assert(fv[2] == f@[2]@);
        assert(fv[3] == f@[3]@);
        let source = field_number(&f[0]);
        let target = field_number(&f[1]);
        let top = read_symbol(&f[2]);
        let bottom = read_symbol(&f[3]);
        let weight = if count == 4 {
            Some(Weight::zero())
        } else {
            assert(fv[4] == f@[4]@);
            parse_weight(&f[4])
        };
        match (source, target, top, bottom, weight) {
            (Some(s), Some(t), Some(a), Some(b), Some(w)) => Some(Some(Err((s, t, a, b, w)))),
            _ => None,
        }
    } else {
        Some(None)
    }
}

/// Reads the rows of AT&T text.
pub fn read_rows(s: &Vec<char>) -> (r: Result<
    Vec<Result<(u64, Weight), (u64, u64, Symbol, Symbol, Weight)>>,
    KfstError,
>)
    ensures
        match r {
            Ok(rows) => att_rows(s@, 0, 0) == Ok::<Seq<AttRowView>, KfstError>(
                att_row_views(rows@),
            ),
            Err(e) => att_rows(s@, 0, 0) == Err::<Seq<AttRowView>, KfstError>(e),
        },
{
    let n = s.len();
    assert(s@.subrange(0, n as int) == s@);
    let ghost whole = att_rows(s@, 0, 0);
    let mut rows: Vec<Result<(u64, Weight), (u64, u64, Symbol, Symbol, Weight)>> = Vec::new();
    let mut from: usize = 0;
    let mut number: usize = 0;
    proof {
        match att_rows(s@, 0, 0) {
            Ok(rest) => {
                assert(att_row_views(rows@) + rest =~= rest);
            },
            Err(_) => {},
        }
    }
    while from < n
        invariant
            from <= n,
            n == s.len(),
            number <= from,
            whole == att_rows(s@, 0, 0),
            whole == match att_rows(s@, from as int, number as nat) {
                Ok(rest) => Ok::<Seq<AttRowView>, KfstError>(att_row_views(rows@) + rest),
                Err(e) => Err(e),
            },
        decreases n - from,
    {
        let ghost before = att_row_views(rows@);
        let feed = find_in(s, '\n', from, n);
        proof {
            lemma_position_from(s@, '\n', from as int);
            lemma_position_from(s@.subrange(from as int, n as int), '\n', 0);
            lemma_find_shift(s@, '\n', from as int);
        }
        assert(feed as int == position_from(s@, '\n', from as int));
        let end = if from < feed && feed < n && s[feed - 1] == '\r' {
            feed - 1
        } else {
            feed
        };
        let next = if feed < n {
            feed + 1
        } else {
            n
        };
        let line = slice_chars(s, from, end);
        match read_line(&line) {
            None => {
                return Err(KfstError::AttLine { line: number });
            },
            Some(row) => {
                match row {
                    Some(r) => {
                        rows.push(r);
                        let ghost rv: AttRowView = att_row_views(rows@)[rows.len() - 1];
                        assert(att_row_views(rows@) =~= before.push(rv));
                        proof {
                            match att_rows(s@, next as int, (number + 1) as nat) {
                                Ok(rest) => {
                                    assert(before + (seq![rv] + rest) =~= att_row_views(rows@)
                                        + rest);
                                },
                                Err(_) => {},
                            }
                        }
                    },
                    None => {},
                }
            },
        }
        from = next;
        number = number + 1;
    }
    assert(att_row_views(rows@) + Seq::<AttRowView>::empty() =~= att_row_views(rows@));
    Ok(rows)
}

/// Searching a text from `from` on finds what searching its part from
/// `from` on finds.
pub proof fn lemma_find_shift(s: Seq<char>, c: char, from: int)
    requires
        0 <= from <= s.len(),
    ensures
        position_from(s, c, from) == from + position_from(s.subrange(from, s.len() as int), c, 0),
{
    lemma_find_shift_at(s, c, from, from);
}

/// The same, for a search that has come to position `i`.
pub proof fn lemma_find_shift_at(s: Seq<char>, c: char, from: int, i: int)
    requires
        0 <= from <= i <= s.len(),
    ensures
        position_from(s, c, i) == from + position_from(
            s.subrange(from, s.len() as int),
            c,
            i - from,
        ),
    decreases s.len() - i,
{
    let t = s.subrange(from, s.len() as int);
    if i < s.len() {
        assert(t[i - from] == s[i]);
        if s[i] != c {
            lemma_find_shift_at(s, c, from, i + 1);
        }
    }
}

/// The line of a rule without its weight: source state, target state,
/// input symbol and output symbol, separated by tabs.
pub open spec fn rule_line(rule: RuleView) -> Seq<char> {
    decimal(rule.0 as nat) + seq!['\t'] + decimal(rule.1 as nat) + seq!['\t'] + rule.2.text()
        + seq!['\t'] + rule.3.text()
}

/// The lines of a transducer without their weights, each with its weight:
/// the final states, then the rules.
pub open spec fn att_entries(fst: FstView) -> Seq<(Seq<char>, Weight)> {
    let rules = flat_rules(fst.rules);
    Seq::new(fst.finals.len(), |i: int| (decimal(fst.finals[i].0 as nat), fst.finals[i].1))
        + Seq::new(rules.len(), |i: int| (rule_line(rules[i]), rules[i].4))
}

/// The weights other than zero, in the order of their lines.
pub open spec fn heavy(entries: Seq<(Seq<char>, Weight)>) -> Seq<Weight>
    decreases entries.len(),
{
    if entries.len() == 0 {
        Seq::empty()
    } else if entries.last().1.is_zero() {
        heavy(entries.drop_last())
    } else {
        heavy(entries.drop_last()).push(entries.last().1)
    }
}

/// The text of the lines, separated by line feeds. A line whose weight is
/// zero stands without a weight; any other ends in a tab and the numeral
/// given for its weight, the `k`-th numeral for the `k`-th such weight.
pub open spec fn rendered(entries: Seq<(Seq<char>, Weight)>, numerals: Seq<Seq<char>>) -> Seq<
    char,
>
    decreases entries.len(),
{
    if entries.len() == 0 {
        Seq::empty()
    } else {
        let head = entries.drop_last();
        let line = if entries.last().1.is_zero() {
            entries.last().0
        } else {
            entries.last().0 + seq!['\t'] + numerals[heavy(head).len() as int]
        };
        if head.len() == 0 {
            line
        } else {
            rendered(head, numerals) + seq!['\n'] + line
        }
    }
}

/// What a list of strings is.
pub open spec fn string_views(s: Seq<String>) -> Seq<Seq<char>> {
    Seq::new(s.len(), |i: int| s[i]@)
}

/// The first lines hold no more weights other than zero than all the lines.
pub proof fn lemma_heavy_prefix(entries: Seq<(Seq<char>, Weight)>, i: int)
    requires
        0 <= i <= entries.len(),
    ensures
        heavy(entries.subrange(0, i)).len() <= heavy(entries).len(),
    decreases entries.len() - i,
{
    if i < entries.len() {
        lemma_heavy_prefix(entries, i + 1);
        assert(entries.subrange(0, i + 1).drop_last() == entries.subrange(0, i));
    } else {
        assert(entries.subrange(0, i) == entries);
    }
}

impl FST {
    /// The lines of the AT&T text without their weights, each with its
    /// weight.
    pub fn att_lines(&self) -> (r: Vec<(Vec<char>, Weight)>)
        ensures
            item_views(r@) == att_entries(self@),
    {
        let finals = self.final_states();
        let rules = self.transitions();
        let ghost fv = Seq::new(
            finals@.len(),
            |i: int| (decimal(finals@[i].0 as nat), finals@[i].1),
        );
        let ghost flat = rule_views(rules@);
        let ghost rv = Seq::new(flat.len(), |i: int| (rule_line(flat[i]), flat[i].4));
        let mut r: Vec<(Vec<char>, Weight)> = Vec::new();
        let mut i: usize = 0;
        while i < finals.len()
            invariant
                i <= finals.len(),
                item_views(r@) =~= fv.subrange(0, i as int),
                fv == Seq::new(finals@.len(), |i: int| (decimal(finals@[i].0 as nat), finals@[i].1)),
            decreases finals.len() - i,
        {
            let ghost before = item_views(r@);
            let mut line: Vec<char> = Vec::new();
            push_decimal(&mut line, finals[i].0);
            assert(line@ =~= decimal(finals@[i as int].0 as nat));
            r.push((line, finals[i].1));
            assert(item_views(r@) =~= before.push(fv[i as int]));
            i += 1;
        }
        assert(fv.subrange(0, finals.len() as int) =~= fv);
        let mut j: usize = 0;
        while j < rules.len()
            invariant
                j <= rules.len(),
                flat == rule_views(rules@),
                rv == Seq::new(flat.len(), |i: int| (rule_line(flat[i]), flat[i].4)),
                item_views(r@) =~= fv + rv.subrange(0, j as int),
            decreases rules.len() - j,
        {
            let ghost before = item_views(r@);
            let rule = &rules[j];
            let mut line: Vec<char> = Vec::new();
            push_decimal(&mut line, rule.0);
            line.push('\t');
            push_decimal(&mut line, rule.1);
            line.push('\t');
            let top = rule.2.text();
            append_chars(&mut line, &top);
            line.push('\t');
            let bottom = rule.3.text();
            append_chars(&mut line, &bottom);
            assert(line@ =~= rule_line(flat[j as int]));
            r.push((line, rule.4));
            assert(item_views(r@) =~= before.push(rv[j as int]));
            j += 1;
        }
        assert(rv.subrange(0, rules.len() as int) =~= rv);
        assert(item_views(r@) =~= fv + rv);
        r
    }

    /// The weights other than zero, in the order of their lines in the
    /// AT&T text: the numerals that `to_att_code` needs are theirs.
    pub fn att_weights(&self) -> (r: Vec<Weight>)
        ensures
            r@ == heavy(att_entries(self@)),
    {
        let lines = self.att_lines();
        let ghost all = item_views(lines@);
        let mut r: Vec<Weight> = Vec::new();
        let mut i: usize = 0;
        assert(all.subrange(0, 0) =~= Seq::empty());
        assert(r@ =~= heavy(all.subrange(0, 0)));
        while i < lines.len()
            invariant
                i <= lines.len(),
                all == item_views(lines@),
                r@ == heavy(all.subrange(0, i as int)),
            decreases lines.len() - i,
        {
            let ghost next = all.subrange(0, i + 1);
            assert(next.drop_last() == all.subrange(0, i as int));
            assert(next.last() == all[i as int]);
            if !lines[i].1.zero_valued() {
                r.push(lines[i].1);
            }
            i += 1;
        }
        assert(all.subrange(0, lines.len() as int) == all);
        r
    }

    /// Writes the transducer as AT&T text: every final state, then every
    /// rule, one to a line. A weight of zero is left out; for every other
    /// weight `numerals` gives the numeral to write, in the order of
    /// `att_weights`. Returns `None` where the number of numerals is not the
    /// number of those weights.
    pub fn to_att_code(&self, numerals: &Vec<String>) -> (r: Option<String>)
        ensures
            match r {
                Some(text) => numerals.len() == heavy(att_entries(self@)).len() && text@
                    == rendered(att_entries(self@), string_views(numerals@)),
                None => numerals.len() != heavy(att_entries(self@)).len(),
            },
    {
        let lines = self.att_lines();
        let ghost all = item_views(lines@);
        let ghost texts = string_views(numerals@);
        let mut out: Vec<char> = Vec::new();
        let mut k: usize = 0;
        let mut i: usize = 0;
        assert(all.subrange(0, 0) =~= Seq::empty());
        while i < lines.len()
            invariant
                i <= lines.len(),
                all == item_views(lines@),
                all == att_entries(self@),
                texts == string_views(numerals@),
                k as int == heavy(all.subrange(0, i as int)).len(),
                k <= numerals.len(),
                out@ == rendered(all.subrange(0, i as int), texts),
            decreases lines.len() - i,
        {
            let ghost next = all.subrange(0, i + 1);
            assert(next.drop_last() == all.subrange(0, i as int));
            assert(next.last() == all[i as int]);
            proof {
                lemma_heavy_prefix(all, i + 1);
            }
            let ghost before = out@;
            if i > 0 {
                out.push('\n');
            }
            append_chars(&mut out, &lines[i].0);
            if !lines[i].1.zero_valued() {
                assert(heavy(next).len() == k + 1);
                if k >= numerals.len() {
                    return None;
                }
                out.push('\t');
                let numeral = chars_of(numerals[k].as_str());
                append_chars(&mut out, &numeral);
                k += 1;
            }
            assert(out@ =~= rendered(next, texts));
            i += 1;
        }
        assert(all.subrange(0, lines.len() as int) == all);
        if k != numerals.len() {
            return None;
        }
        Some(string_of(&out))
    }

    /// The transducer that the given rows describe: the final states and
    /// the rules in the order of the rows, and the alphabet of the symbols of
    /// the rules.
    pub fn from_att_rows(
        rows: Vec<Result<(u64, Weight), (u64, u64, Symbol, Symbol, Weight)>>,
        debug: bool,
    ) -> (r: FST)
        ensures
            r.wf(),
            r@ == fst_of_rows(att_row_views(rows@)),
            r.debug_mark() == debug,
    {
        let ghost all = att_row_views(rows@);
        let mut finals: Vec<(u64, Weight)> = Vec::new();
        let mut rules: Vec<(u64, u64, Symbol, Symbol, Weight)> = Vec::new();
        let mut symbols: Vec<Symbol> = Vec::new();
        let mut i: usize = 0;
        assert(all.subrange(0, 0) =~= Seq::empty());
        assert(finals@ =~= row_finals(all.subrange(0, 0)));
        assert(rule_views(rules@) =~= row_rules(all.subrange(0, 0)));
        assert(views(symbols@) =~= row_symbols(all.subrange(0, 0)));
        while i < rows.len()
            invariant
                i <= rows.len(),
                all == att_row_views(rows@),
                finals@ == row_finals(all.subrange(0, i as int)),
                rule_views(rules@) == row_rules(all.subrange(0, i as int)),
                views(symbols@) == row_symbols(all.subrange(0, i as int)),
            decreases rows.len() - i,
        {
            let ghost next = all.subrange(0, i + 1);
            assert(next.drop_last() == all.subrange(0, i as int));
            assert(next.last() == all[i as int]);
            let ghost rules_before = rule_views(rules@);
            let ghost symbols_before = views(symbols@);
            match &rows[i] {
                Ok(f) => {
                    finals.push(*f);
                },
                Err(t) => {
                    let top = t.2.clone();
                    let bottom = t.3.clone();
                    rules.push((t.0, t.1, t.2.clone(), t.3.clone(), t.4));
                    symbols.push(top);
                    symbols.push(bottom);
                    assert(rule_views(rules@) =~= rules_before.push((t.0, t.1, t.2@, t.3@, t.4)));
                    assert(views(symbols@) =~= symbols_before.push(t.2@).push(t.3@));
                },
            }
            i += 1;
        }
        assert(all.subrange(0, rows.len() as int) == all);
        let fst = FST::from_rules(finals, rules, symbols, Some(debug));
        proof {
            fst.lemma_view_parts(fst_of_rows(all));
        }
        fst
    }

    /// Reads a transducer from AT&T text. Fails at the first malformed
    /// line, with its number counted from zero.
    pub fn from_att_code(att_code: String, debug: bool) -> (r: Result<FST, KfstError>)
        ensures
            match r {
                Ok(fst) => fst.wf() && fst.debug_mark() == debug && match att_rows(
                    att_code@,
                    0,
                    0,
                ) {
                    Ok(rows) => fst@ == fst_of_rows(rows),
                    Err(_) => false,
                },
                Err(e) => att_rows(att_code@, 0, 0) == Err::<Seq<AttRowView>, KfstError>(e),
            },
    {
        let chars = chars_of(att_code.as_str());
        match read_rows(&chars) {
            Ok(rows) => Ok(FST::from_att_rows(rows, debug)),
            Err(e) => Err(e),
        }
    }
}

} // verus!
