//! A transducer is the transducer that its own parts describe: listing its
//! final states, its rules and its alphabet and building a transducer of
//! them gives it back. Both file formats rest on this.

use crate::alphabet::{
    alphabet_of, distinct, in_order, inserted, may_precede, slot, sorted,
};
use crate::nodes::{key_slot, lemma_key_slot};
use crate::symbol::SymbolView;
use crate::transducer::{
    final_keys, finals_of, flat_arcs, flat_groups, flat_rules, group_slot, groups_valid,
    lemma_group_slot, put_arc, put_final, put_rule, row_keys, rules_of, ArcView, FstView,
    GroupView, RowView, RuleView,
};
use crate::weight::Weight;
use vstd::prelude::*;

verus! {

/// Final states of which none occurs twice are the final states that they
/// give.
pub proof fn lemma_finals_fixed(finals: Seq<(u64, Weight)>)
    requires
        final_keys(finals).no_duplicates(),
    ensures
        finals_of(finals) == finals,
    decreases finals.len(),
{
    if finals.len() > 0 {
        let head = finals.drop_last();
        let keys = final_keys(finals);
        assert(final_keys(head) =~= keys.drop_last());
        assert(final_keys(head).no_duplicates()) by {
            assert forall|i: int, j: int|
                0 <= i < head.len() && 0 <= j < head.len() && i != j implies final_keys(head)[i]
                != final_keys(head)[j] by {
                assert(keys[i] != keys[j]);
            }
        }
        lemma_finals_fixed(head);
        lemma_key_slot(final_keys(head), finals.last().0);
        assert(!final_keys(head).contains(finals.last().0)) by {
            if final_keys(head).contains(finals.last().0) {
                let k = choose|k: int|
                    0 <= k < final_keys(head).len() && final_keys(head)[k] == finals.last().0;
                assert(keys[k] == keys[finals.len() - 1]);
            }
        }
        assert(put_final(head, finals.last().0, finals.last().1) =~= finals);
    }
}

/// A list of symbols without repetitions stays as it is when repetitions
/// are dropped.
pub proof fn lemma_distinct_fixed(s: Seq<SymbolView>)
    requires
        s.no_duplicates(),
    ensures
        distinct(s) == s,
    decreases s.len(),
{
    if s.len() > 0 {
        let head = s.drop_last();
        assert(head.no_duplicates()) by {
            assert forall|i: int, j: int|
                0 <= i < head.len() && 0 <= j < head.len() && i != j implies head[i] != head[j] by {
                assert(s[i] != s[j]);
            }
        }
        lemma_distinct_fixed(head);
        assert(!head.contains(s.last())) by {
            if head.contains(s.last()) {
                let k = choose|k: int| 0 <= k < head.len() && head[k] == s.last();
                assert(s[k] == s[s.len() - 1]);
            }
        }
        assert(head.push(s.last()) =~= s);
    }
}

/// A list of symbols that is in order stays as it is when sorted.
pub proof fn lemma_sorted_fixed(s: Seq<SymbolView>)
    requires
        in_order(s),
    ensures
        sorted(s) == s,
    decreases s.len(),
{
    if s.len() > 0 {
        let head = s.drop_last();
        assert(in_order(head)) by {
            assert forall|i: int, j: int| 0 <= i < j < head.len() implies may_precede(
                #[trigger] head[i],
                #[trigger] head[j],
            ) by {
                assert(may_precede(s[i], s[j]));
            }
        }
        lemma_sorted_fixed(head);
        if head.len() > 0 {
            assert(may_precede(s[head.len() - 1], s[s.len() - 1]));
            assert(head.last() == s[head.len() - 1]);
        }
        assert(slot(head, s.last()) == head.len());
        assert(inserted(head, s.last()) =~= s);
    }
}

/// An alphabet is the alphabet made of its own symbols.
pub proof fn lemma_alphabet_fixed(s: Seq<SymbolView>)
    requires
        in_order(s),
        s.no_duplicates(),
    ensures
        alphabet_of(s) == s,
{
    lemma_distinct_fixed(s);
    lemma_sorted_fixed(s);
}

/// The rows after further rules are given, one after the other.
pub open spec fn put_rules(base: Seq<RowView>, rules: Seq<RuleView>) -> Seq<RowView>
    decreases rules.len(),
{
    if rules.len() == 0 {
        base
    } else {
        put_rule(put_rules(base, rules.drop_last()), rules.last())
    }
}

/// The rows that a list of rules gives are what giving them one after the
/// other to no rows leaves.
pub proof fn lemma_rules_of_put(rules: Seq<RuleView>)
    ensures
        rules_of(rules) == put_rules(Seq::empty(), rules),
    decreases rules.len(),
{
    if rules.len() > 0 {
        lemma_rules_of_put(rules.drop_last());
    }
}

/// Giving two lists of rules one after the other is giving their
/// concatenation.
pub proof fn lemma_put_rules_concat(base: Seq<RowView>, a: Seq<RuleView>, b: Seq<RuleView>)
    ensures
        put_rules(base, a + b) == put_rules(put_rules(base, a), b),
    decreases b.len(),
{
    if b.len() == 0 {
        assert(a + b =~= a);
    } else {
        lemma_put_rules_concat(base, a, b.drop_last());
        assert((a + b).drop_last() =~= a + b.drop_last());
        assert((a + b).last() == b.last());
    }
}

/// The rows `base` followed by the row of `source` with the groups
/// `groups`, where there are any.
pub open spec fn with_row(base: Seq<RowView>, source: u64, groups: Seq<GroupView>) -> Seq<
    RowView,
> {
    if groups.len() == 0 {
        base
    } else {
        base.push(RowView { source, groups })
    }
}

/// Whether no group has the input symbol `input`.
pub open spec fn input_is_new(groups: Seq<GroupView>, input: SymbolView) -> bool {
    forall|i: int| 0 <= i < groups.len() ==> (#[trigger] groups[i]).input != input
}

proof fn lemma_last_row_slot(base: Seq<RowView>, source: u64, groups: Seq<GroupView>)
    requires
        !row_keys(base).contains(source),
    ensures
        key_slot(row_keys(base.push(RowView { source, groups })), source) == base.len(),
        key_slot(row_keys(base), source) == base.len(),
{
    let rows = base.push(RowView { source, groups });
    lemma_key_slot(row_keys(rows), source);
    lemma_key_slot(row_keys(base), source);
    let p = key_slot(row_keys(rows), source);
    assert(row_keys(rows)[base.len() as int] == source);
    if p < base.len() {
        assert(row_keys(base)[p] == row_keys(rows)[p]);
        assert(row_keys(base).contains(source));
    }
}

proof fn lemma_last_group_slot(groups: Seq<GroupView>, input: SymbolView, arcs: Seq<ArcView>)
    requires
        input_is_new(groups, input),
    ensures
        group_slot(groups.push(GroupView { input, arcs }), input) == groups.len(),
        group_slot(groups, input) == groups.len(),
{
    let all = groups.push(GroupView { input, arcs });
    lemma_group_slot(all, input);
    lemma_group_slot(groups, input);
    let p = group_slot(all, input);
    assert(all[groups.len() as int].input == input);
    if p < groups.len() {
        assert(all[p] == groups[p]);
    }
    let q = group_slot(groups, input);
    if q < groups.len() {
        assert(groups[q].input == input);
    }
}

/// Giving the first `j` rules of a group to rows that hold the earlier
/// groups of its state leaves the rows with that group begun.
pub proof fn lemma_put_group(
    base: Seq<RowView>,
    source: u64,
    groups: Seq<GroupView>,
    input: SymbolView,
    arcs: Seq<ArcView>,
    j: int,
)
    requires
        !row_keys(base).contains(source),
        input_is_new(groups, input),
        0 <= j <= arcs.len(),
    ensures
        put_rules(with_row(base, source, groups), flat_arcs(source, input, arcs).subrange(0, j))
            == if j == 0 {
            with_row(base, source, groups)
        } else {
            base.push(
                RowView {
                    source,
                    groups: groups.push(GroupView { input, arcs: arcs.subrange(0, j) }),
                },
            )
        },
    decreases j,
{
    let flat = flat_arcs(source, input, arcs);
    if j > 0 {
        lemma_put_group(base, source, groups, input, arcs, j - 1);
        let given = flat.subrange(0, j);
        assert(given.drop_last() =~= flat.subrange(0, j - 1));
        let rule = given.last();
        assert(rule == flat[j - 1]);
        let arc = ArcView { target: rule.1, output: rule.3, weight: rule.4 };
        assert(arc == arcs[j - 1]);
        let before = put_rules(with_row(base, source, groups), flat.subrange(0, j - 1));
        let goal = base.push(
            RowView { source, groups: groups.push(GroupView { input, arcs: arcs.subrange(0, j) }) },
        );
        if j == 1 {
            assert(arcs.subrange(0, 1) =~= seq![arc]);
            if groups.len() == 0 {
                lemma_last_row_slot(base, source, groups);
                assert(put_arc(Seq::empty(), input, arc) =~= groups.push(
                    GroupView { input, arcs: seq![arc] },
                ));
                assert(put_rule(before, rule) =~= goal);
            } else {
                lemma_last_row_slot(base, source, groups);
                lemma_last_group_slot(groups, input, seq![arc]);
                assert(before[base.len() as int].groups == groups);
                assert(put_arc(groups, input, arc) =~= groups.push(
                    GroupView { input, arcs: seq![arc] },
                ));
                assert(put_rule(before, rule) =~= goal);
            }
        } else {
            let begun = groups.push(GroupView { input, arcs: arcs.subrange(0, j - 1) });
            lemma_last_row_slot(base, source, begun);
            lemma_last_group_slot(groups, input, arcs.subrange(0, j - 1));
            assert(before[base.len() as int].groups == begun);
            assert(arcs.subrange(0, j - 1).push(arc) =~= arcs.subrange(0, j));
            assert(put_arc(begun, input, arc) =~= groups.push(
                GroupView { input, arcs: arcs.subrange(0, j) },
            ));
            assert(put_rule(before, rule) =~= goal);
        }
    } else {
        assert(flat.subrange(0, 0) =~= Seq::empty());
    }
}

/// Giving the rules of the first `k` groups of a state to rows without that
/// state adds the row of the state with those groups.
pub proof fn lemma_put_row(base: Seq<RowView>, source: u64, groups: Seq<GroupView>, k: int)
    requires
        !row_keys(base).contains(source),
        groups_valid(groups),
        0 <= k <= groups.len(),
    ensures
        put_rules(base, flat_groups(source, groups.subrange(0, k))) == with_row(
            base,
            source,
            groups.subrange(0, k),
        ),
    decreases k,
{
    if k > 0 {
        lemma_put_row(base, source, groups, k - 1);
        let now = groups.subrange(0, k);
        let earlier = groups.subrange(0, k - 1);
        assert(now.drop_last() =~= earlier);
        let g = now.last();
        assert(g == groups[k - 1]);
        assert(input_is_new(earlier, g.input)) by {
            assert forall|i: int| 0 <= i < earlier.len() implies (#[trigger] earlier[i]).input
                != g.input by {
                assert(groups[i].input != groups[k - 1].input);
            }
        }
        let flat = flat_arcs(source, g.input, g.arcs);
        lemma_put_rules_concat(base, flat_groups(source, earlier), flat);
        lemma_put_group(base, source, earlier, g.input, g.arcs, g.arcs.len() as int);
        assert(flat.subrange(0, g.arcs.len() as int) =~= flat);
        assert(g.arcs.subrange(0, g.arcs.len() as int) =~= g.arcs);
        assert(groups[k - 1].arcs.len() > 0);
        assert(earlier.push(GroupView { input: g.input, arcs: g.arcs }) =~= now);
    } else {
        assert(groups.subrange(0, 0) =~= Seq::empty());
    }
}

/// Giving the rules of the first `n` rows to no rows leaves those rows.
pub proof fn lemma_put_rows(rows: Seq<RowView>, n: int)
    requires
        row_keys(rows).no_duplicates(),
        forall|r: int| 0 <= r < rows.len() ==> groups_valid((#[trigger] rows[r]).groups),
        0 <= n <= rows.len(),
    ensures
        put_rules(Seq::empty(), flat_rules(rows.subrange(0, n))) == rows.subrange(0, n),
    decreases n,
{
    if n > 0 {
        lemma_put_rows(rows, n - 1);
        let now = rows.subrange(0, n);
        let earlier = rows.subrange(0, n - 1);
        assert(now.drop_last() =~= earlier);
        let row = now.last();
        assert(row == rows[n - 1]);
        assert(!row_keys(earlier).contains(row.source)) by {
            if row_keys(earlier).contains(row.source) {
                let k = choose|k: int|
                    0 <= k < row_keys(earlier).len() && row_keys(earlier)[k] == row.source;
                assert(row_keys(rows)[k] == row_keys(rows)[n - 1]);
            }
        }
        lemma_put_rules_concat(
            Seq::empty(),
            flat_rules(earlier),
            flat_groups(row.source, row.groups),
        );
        lemma_put_row(earlier, row.source, row.groups, row.groups.len() as int);
        assert(row.groups.subrange(0, row.groups.len() as int) =~= row.groups);
        assert(earlier.push(RowView { source: row.source, groups: row.groups }) =~= now);
    } else {
        assert(rows.subrange(0, 0) =~= Seq::empty());
        assert(flat_rules(Seq::<RowView>::empty()) =~= Seq::empty());
    }
}

/// The rows of a transducer are the rows that its rules give.
pub proof fn lemma_rules_fixed(rows: Seq<RowView>)
    requires
        row_keys(rows).no_duplicates(),
        forall|r: int| 0 <= r < rows.len() ==> groups_valid((#[trigger] rows[r]).groups),
    ensures
        rules_of(flat_rules(rows)) == rows,
{
    lemma_put_rows(rows, rows.len() as int);
    assert(rows.subrange(0, rows.len() as int) =~= rows);
    lemma_rules_of_put(flat_rules(rows));
}

/// A transducer whose parts are valid is the transducer built of its final
/// states, its rules and its alphabet.
pub proof fn lemma_rebuild(fst: FstView)
    requires
        fst.valid(),
    ensures
        finals_of(fst.finals) == fst.finals,
        rules_of(flat_rules(fst.rules)) == fst.rules,
        alphabet_of(fst.alphabet) == fst.alphabet,
{
    lemma_finals_fixed(fst.finals);
    lemma_rules_fixed(fst.rules);
    lemma_alphabet_fixed(fst.alphabet);
}

} // verus!
