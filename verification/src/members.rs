//! What a transducer that was built of final states and rules holds: every
//! rule that was given and no other, and final states that were given.

use crate::nodes::{key_slot, lemma_key_slot};
use crate::transducer::{
    final_keys, finals_of, flat_arcs, flat_groups, flat_rules, group_slot, groups_valid,
    lemma_group_slot, lemma_put_final, lemma_put_rule, put_arc, put_rule, row_keys,
    rules_of, ArcView, GroupView, RowView, RuleView,
};
use crate::weight::Weight;
use vstd::prelude::*;

verus! {

/// The rule that the `j`-th transition of the `g`-th group of the `i`-th
/// row stands for.
pub open spec fn rule_at(rows: Seq<RowView>, i: int, g: int, j: int) -> RuleView {
    let group = rows[i].groups[g];
    let arc = group.arcs[j];
    (rows[i].source, arc.target, group.input, arc.output, arc.weight)
}

/// Whether the rows hold the rule `y`.
pub open spec fn has_rule(rows: Seq<RowView>, y: RuleView) -> bool {
    exists|i: int, g: int, j: int|
        0 <= i < rows.len() && 0 <= g < rows[i].groups.len() && 0 <= j < rows[i].groups[g].arcs.len()
            && #[trigger] rule_at(rows, i, g, j) == y
}

/// Whether the groups of the state `source` hold the rule `y`.
pub open spec fn group_has_rule(source: u64, groups: Seq<GroupView>, y: RuleView) -> bool {
    exists|g: int, j: int|
        0 <= g < groups.len() && 0 <= j < groups[g].arcs.len() && y == (
            source,
            (#[trigger] groups[g].arcs[j]).target,
            groups[g].input,
            groups[g].arcs[j].output,
            groups[g].arcs[j].weight,
        )
}

/// The rules of the groups of a state, listed, are the rules that the
/// groups hold.
pub proof fn lemma_flat_groups_members(source: u64, groups: Seq<GroupView>, y: RuleView)
    ensures
        flat_groups(source, groups).contains(y) <==> group_has_rule(source, groups, y),
    decreases groups.len(),
{
    if groups.len() > 0 {
        let head = groups.drop_last();
        let last = groups.last();
        lemma_flat_groups_members(source, head, y);
        let a = flat_groups(source, head);
        let b = flat_arcs(source, last.input, last.arcs);
        let all = flat_groups(source, groups);
        assert(all == a + b);
        if all.contains(y) {
            let k = choose|k: int| 0 <= k < all.len() && all[k] == y;
            if k < a.len() {
                assert(a[k] == y);
                assert(a.contains(y));
                let (g, j) = choose|g: int, j: int|
                    0 <= g < head.len() && 0 <= j < head[g].arcs.len() && y == (
                        source,
                        (#[trigger] head[g].arcs[j]).target,
                        head[g].input,
                        head[g].arcs[j].output,
                        head[g].arcs[j].weight,
                    );
                assert(groups[g] == head[g]);
                assert(y == (
                    source,
                    groups[g].arcs[j].target,
                    groups[g].input,
                    groups[g].arcs[j].output,
                    groups[g].arcs[j].weight,
                ));
            } else {
                let j = k - a.len();
                assert(b[j] == y);
                let g = groups.len() - 1;
                assert(y == (
                    source,
                    groups[g].arcs[j].target,
                    groups[g].input,
                    groups[g].arcs[j].output,
                    groups[g].arcs[j].weight,
                ));
            }
        }
        if group_has_rule(source, groups, y) {
            let (g, j) = choose|g: int, j: int|
                0 <= g < groups.len() && 0 <= j < groups[g].arcs.len() && y == (
                    source,
                    (#[trigger] groups[g].arcs[j]).target,
                    groups[g].input,
                    groups[g].arcs[j].output,
                    groups[g].arcs[j].weight,
                );
            if g < head.len() {
                assert(head[g] == groups[g]);
                assert(y == (
                    source,
                    head[g].arcs[j].target,
                    head[g].input,
                    head[g].arcs[j].output,
                    head[g].arcs[j].weight,
                ));
                assert(group_has_rule(source, head, y));
                let k = choose|k: int| 0 <= k < a.len() && a[k] == y;
                assert(all[k] == y);
            } else {
                assert(b[j] == y);
                assert(all[a.len() + j] == y);
            }
        }
    } else {
        if flat_groups(source, groups).contains(y) {
            let k = choose|k: int|
                0 <= k < flat_groups(source, groups).len() && flat_groups(source, groups)[k] == y;
        }
    }
}

/// The rules of a transducer, listed, are the rules that its rows hold.
pub proof fn lemma_flat_members(rows: Seq<RowView>, y: RuleView)
    ensures
        flat_rules(rows).contains(y) <==> has_rule(rows, y),
    decreases rows.len(),
{
    if rows.len() > 0 {
        let head = rows.drop_last();
        let last = rows.last();
        lemma_flat_members(head, y);
        lemma_flat_groups_members(last.source, last.groups, y);
        let a = flat_rules(head);
        let b = flat_groups(last.source, last.groups);
        let all = flat_rules(rows);
        assert(all == a + b);
        if all.contains(y) {
            let k = choose|k: int| 0 <= k < all.len() && all[k] == y;
            if k < a.len() {
                assert(a[k] == y);
                assert(a.contains(y));
                let (i, g, j) = choose|i: int, g: int, j: int|
                    0 <= i < head.len() && 0 <= g < head[i].groups.len() && 0 <= j
                        < head[i].groups[g].arcs.len() && #[trigger] rule_at(head, i, g, j) == y;
                assert(rows[i] == head[i]);
                assert(rule_at(rows, i, g, j) == y);
            } else {
                assert(b[k - a.len()] == y);
                assert(b.contains(y));
                let (g, j) = choose|g: int, j: int|
                    0 <= g < last.groups.len() && 0 <= j < last.groups[g].arcs.len() && y == (
                        last.source,
                        (#[trigger] last.groups[g].arcs[j]).target,
                        last.groups[g].input,
                        last.groups[g].arcs[j].output,
                        last.groups[g].arcs[j].weight,
                    );
                assert(rule_at(rows, rows.len() - 1, g, j) == y);
            }
        }
        if has_rule(rows, y) {
            let (i, g, j) = choose|i: int, g: int, j: int|
                0 <= i < rows.len() && 0 <= g < rows[i].groups.len() && 0 <= j
                    < rows[i].groups[g].arcs.len() && #[trigger] rule_at(rows, i, g, j) == y;
            if i < head.len() {
                assert(head[i] == rows[i]);
                assert(rule_at(head, i, g, j) == y);
                assert(has_rule(head, y));
                let k = choose|k: int| 0 <= k < a.len() && a[k] == y;
                assert(all[k] == y);
            } else {
                assert(y == (
                    last.source,
                    last.groups[g].arcs[j].target,
                    last.groups[g].input,
                    last.groups[g].arcs[j].output,
                    last.groups[g].arcs[j].weight,
                ));
                assert(group_has_rule(last.source, last.groups, y));
                let k = choose|k: int| 0 <= k < b.len() && b[k] == y;
                assert(all[a.len() + k] == y);
            }
        }
    } else {
        if flat_rules(rows).contains(y) {
            let k = choose|k: int| 0 <= k < flat_rules(rows).len() && flat_rules(rows)[k] == y;
        }
    }
}

/// The groups after one more transition is given hold that transition and
/// what they held.
pub proof fn lemma_put_arc_members(
    source: u64,
    groups: Seq<GroupView>,
    rule: RuleView,
    y: RuleView,
)
    requires
        rule.0 == source,
    ensures
        group_has_rule(
            source,
            put_arc(
                groups,
                rule.2,
                ArcView { target: rule.1, output: rule.3, weight: rule.4 },
            ),
            y,
        ) <==> (group_has_rule(source, groups, y) || y == rule),
{
    let arc = ArcView { target: rule.1, output: rule.3, weight: rule.4 };
    let after = put_arc(groups, rule.2, arc);
    lemma_group_slot(groups, rule.2);
    let p = group_slot(groups, rule.2);
    if group_has_rule(source, after, y) {
        let (g, j) = choose|g: int, j: int|
            0 <= g < after.len() && 0 <= j < after[g].arcs.len() && y == (
                source,
                (#[trigger] after[g].arcs[j]).target,
                after[g].input,
                after[g].arcs[j].output,
                after[g].arcs[j].weight,
            );
        if p < groups.len() {
            if g == p && j == groups[p].arcs.len() {
                assert(y == rule);
            } else {
                assert(after[g].arcs[j] == groups[g].arcs[j]);
                assert(y == (
                    source,
                    groups[g].arcs[j].target,
                    groups[g].input,
                    groups[g].arcs[j].output,
                    groups[g].arcs[j].weight,
                ));
            }
        } else {
            if g == groups.len() {
                assert(y == rule);
            } else {
                assert(after[g] == groups[g]);
                assert(y == (
                    source,
                    groups[g].arcs[j].target,
                    groups[g].input,
                    groups[g].arcs[j].output,
                    groups[g].arcs[j].weight,
                ));
            }
        }
    }
    if group_has_rule(source, groups, y) {
        let (g, j) = choose|g: int, j: int|
            0 <= g < groups.len() && 0 <= j < groups[g].arcs.len() && y == (
                source,
                (#[trigger] groups[g].arcs[j]).target,
                groups[g].input,
                groups[g].arcs[j].output,
                groups[g].arcs[j].weight,
            );
        assert(after[g].arcs[j] == groups[g].arcs[j]);
        assert(after[g].input == groups[g].input);
        assert(y == (
            source,
            after[g].arcs[j].target,
            after[g].input,
            after[g].arcs[j].output,
            after[g].arcs[j].weight,
        ));
    }
    if y == rule {
        if p < groups.len() {
            let j = groups[p].arcs.len() as int;
            assert(after[p].arcs[j] == arc);
            assert(y == (
                source,
                after[p].arcs[j].target,
                after[p].input,
                after[p].arcs[j].output,
                after[p].arcs[j].weight,
            ));
        } else {
            let g = groups.len() as int;
            assert(after[g].arcs[0] == arc);
            assert(y == (
                source,
                after[g].arcs[0].target,
                after[g].input,
                after[g].arcs[0].output,
                after[g].arcs[0].weight,
            ));
        }
    }
}

/// Whether the `i`-th row holds the rule `y`.
pub open spec fn row_has_rule(rows: Seq<RowView>, i: int, y: RuleView) -> bool {
    group_has_rule(rows[i].source, rows[i].groups, y)
}

/// The rows hold a rule exactly where one of them holds it.
pub proof fn lemma_has_rule_rows(rows: Seq<RowView>, y: RuleView)
    ensures
        has_rule(rows, y) <==> exists|i: int| 0 <= i < rows.len() && #[trigger] row_has_rule(rows, i, y),
{
    if has_rule(rows, y) {
        let (i, g, j) = choose|i: int, g: int, j: int|
            0 <= i < rows.len() && 0 <= g < rows[i].groups.len() && 0 <= j
                < rows[i].groups[g].arcs.len() && #[trigger] rule_at(rows, i, g, j) == y;
        let groups = rows[i].groups;
        assert(y == (
            rows[i].source,
            groups[g].arcs[j].target,
            groups[g].input,
            groups[g].arcs[j].output,
            groups[g].arcs[j].weight,
        ));
        assert(row_has_rule(rows, i, y));
    }
    if exists|i: int| 0 <= i < rows.len() && #[trigger] row_has_rule(rows, i, y) {
        let i = choose|i: int| 0 <= i < rows.len() && #[trigger] row_has_rule(rows, i, y);
        let groups = rows[i].groups;
        let (g, j) = choose|g: int, j: int|
            0 <= g < groups.len() && 0 <= j < groups[g].arcs.len() && y == (
                rows[i].source,
                (#[trigger] groups[g].arcs[j]).target,
                groups[g].input,
                groups[g].arcs[j].output,
                groups[g].arcs[j].weight,
            );
        assert(rule_at(rows, i, g, j) == y);
    }
}

/// The rows after one more rule is given hold that rule and what they
/// held.
pub proof fn lemma_put_rule_members(rows: Seq<RowView>, rule: RuleView, y: RuleView)
    ensures
        has_rule(put_rule(rows, rule), y) <==> (has_rule(rows, y) || y == rule),
{
    let arc = ArcView { target: rule.1, output: rule.3, weight: rule.4 };
    let after = put_rule(rows, rule);
    lemma_key_slot(row_keys(rows), rule.0);
    let p = key_slot(row_keys(rows), rule.0);
    lemma_has_rule_rows(rows, y);
    lemma_has_rule_rows(after, y);
    if p < rows.len() {
        assert(row_keys(rows)[p] == rule.0);
        assert(rows[p].source == rule.0);
        lemma_put_arc_members(rule.0, rows[p].groups, rule, y);
        assert(after[p].source == rule.0);
        assert(after[p].groups == put_arc(rows[p].groups, rule.2, arc));
        assert(row_has_rule(after, p, y) <==> (row_has_rule(rows, p, y) || y == rule));
        if has_rule(after, y) {
            let i = choose|i: int| 0 <= i < after.len() && #[trigger] row_has_rule(after, i, y);
            if i != p {
                assert(after[i] == rows[i]);
                assert(row_has_rule(rows, i, y));
            }
        }
        if has_rule(rows, y) {
            let i = choose|i: int| 0 <= i < rows.len() && #[trigger] row_has_rule(rows, i, y);
            if i != p {
                assert(after[i] == rows[i]);
                assert(row_has_rule(after, i, y));
            } else {
                assert(row_has_rule(after, p, y));
            }
        }
        if y == rule {
            assert(row_has_rule(after, p, y));
        }
    } else {
        let n = rows.len() as int;
        lemma_put_arc_members(rule.0, Seq::empty(), rule, y);
        assert(after[n].source == rule.0);
        assert(after[n].groups == put_arc(Seq::empty(), rule.2, arc));
        assert(!group_has_rule(rule.0, Seq::<GroupView>::empty(), y));
        assert(row_has_rule(after, n, y) <==> y == rule);
        if has_rule(after, y) {
            let i = choose|i: int| 0 <= i < after.len() && #[trigger] row_has_rule(after, i, y);
            if i < n {
                assert(after[i] == rows[i]);
                assert(row_has_rule(rows, i, y));
            }
        }
        if has_rule(rows, y) {
            let i = choose|i: int| 0 <= i < rows.len() && #[trigger] row_has_rule(rows, i, y);
            assert(after[i] == rows[i]);
            assert(row_has_rule(after, i, y));
        }
        if y == rule {
            assert(row_has_rule(after, n, y));
        }
    }
}

/// A transducer that was built of rules holds those rules and no others.
pub proof fn lemma_built_rules(rules: Seq<RuleView>, y: RuleView)
    ensures
        flat_rules(rules_of(rules)).contains(y) <==> rules.contains(y),
    decreases rules.len(),
{
    lemma_flat_members(rules_of(rules), y);
    if rules.len() > 0 {
        let head = rules.drop_last();
        lemma_built_rules(head, y);
        lemma_flat_members(rules_of(head), y);
        lemma_put_rule_members(rules_of(head), rules.last(), y);
        if rules.contains(y) {
            let k = choose|k: int| 0 <= k < rules.len() && rules[k] == y;
            if k < head.len() {
                assert(head[k] == y);
                assert(head.contains(y));
            }
        }
        if head.contains(y) {
            let k = choose|k: int| 0 <= k < head.len() && head[k] == y;
            assert(rules[k] == y);
        }
        assert(rules[rules.len() - 1] == rules.last());
    } else {
        assert(!has_rule(Seq::<RowView>::empty(), y));
        if rules.contains(y) {
            let k = choose|k: int| 0 <= k < rules.len() && rules[k] == y;
        }
    }
}

/// The final states that entries give are among the entries, none of them
/// twice.
pub proof fn lemma_built_finals(entries: Seq<(u64, Weight)>)
    ensures
        final_keys(finals_of(entries)).no_duplicates(),
        forall|i: int|
            0 <= i < finals_of(entries).len() ==> entries.contains(#[trigger] finals_of(entries)[i]),
    decreases entries.len(),
{
    if entries.len() > 0 {
        let head = entries.drop_last();
        let last = entries.last();
        lemma_built_finals(head);
        let before = finals_of(head);
        lemma_put_final(before, last.0, last.1);
        lemma_key_slot(final_keys(before), last.0);
        let after = finals_of(entries);
        assert(entries[entries.len() - 1] == last);
        assert forall|i: int| 0 <= i < after.len() implies entries.contains(
            #[trigger] after[i],
        ) by {
            if after[i] == last {
            } else {
                assert(after[i] == before[i]);
                assert(head.contains(before[i]));
                let k = choose|k: int| 0 <= k < head.len() && head[k] == before[i];
                assert(entries[k] == after[i]);
            }
        }
    } else {
        assert(final_keys(finals_of(entries)) =~= Seq::<u64>::empty());
    }
}

/// The rows that rules give are valid, and no state has two of them.
pub proof fn lemma_built_rows(rules: Seq<RuleView>)
    ensures
        row_keys(rules_of(rules)).no_duplicates(),
        forall|r: int|
            0 <= r < rules_of(rules).len() ==> groups_valid((#[trigger] rules_of(rules)[r]).groups),
    decreases rules.len(),
{
    if rules.len() > 0 {
        lemma_built_rows(rules.drop_last());
        lemma_put_rule(rules_of(rules.drop_last()), rules.last());
    } else {
        assert(row_keys(rules_of(rules)) =~= Seq::<u64>::empty());
    }
}

} // verus!
