//! The transducer: weighted final states, rules grouped by source state and
//! input symbol, and the alphabet.

use crate::alphabet::{alphabet_of, in_order, lemma_alphabet, make_alphabet, views};
use crate::nodes::{
    key_slot, lemma_key_slot, node_seq, node_set_index_of, node_set_insert, node_set_new, NodeSet,
};
use crate::symbol::{Symbol, SymbolView};
use crate::weight::Weight;
use vstd::prelude::*;

verus! {

/// One way out of a state: where it leads, what it emits and what it costs.
#[derive(Debug, PartialEq)]
pub struct Transition {
    pub target: u64,
    pub output: Symbol,
    pub weight: Weight,
}

/// What a transition is.
pub struct ArcView {
    pub target: u64,
    pub output: SymbolView,
    pub weight: Weight,
}

/// The transitions out of one state under one input symbol, in the order in
/// which they were given.
#[derive(Debug, PartialEq)]
pub struct RuleGroup {
    pub input: Symbol,
    pub transitions: Vec<Transition>,
}

/// What a group of transitions is.
pub struct GroupView {
    pub input: SymbolView,
    pub arcs: Seq<ArcView>,
}

/// The groups of transitions out of one state, in the order in which their
/// input symbols first occurred.
#[derive(Debug, PartialEq)]
pub struct RuleRow {
    pub source: u64,
    pub groups: Vec<RuleGroup>,
}

/// What the rules of one state are.
pub struct RowView {
    pub source: u64,
    pub groups: Seq<GroupView>,
}

/// A rule as it is given: source state, target state, input symbol, output
/// symbol and weight.
pub type RuleView = (u64, u64, SymbolView, SymbolView, Weight);

/// What a transducer is.
pub struct FstView {
    /// The final states with their weights, in the order in which they
    /// first occurred.
    pub finals: Seq<(u64, Weight)>,
    /// The rules, state by state in the order in which the states first
    /// occurred as a source.
    pub rules: Seq<RowView>,
    /// The alphabet.
    pub alphabet: Seq<SymbolView>,
}

impl View for Transition {
    type V = ArcView;

    open spec fn view(&self) -> ArcView {
        ArcView { target: self.target, output: self.output@, weight: self.weight }
    }
}

/// What a list of transitions is.
pub open spec fn arc_views(s: Seq<Transition>) -> Seq<ArcView> {
    Seq::new(s.len(), |i: int| s[i]@)
}

impl View for RuleGroup {
    type V = GroupView;

    open spec fn view(&self) -> GroupView {
        GroupView { input: self.input@, arcs: arc_views(self.transitions@) }
    }
}

/// What a list of groups is.
pub open spec fn group_views(s: Seq<RuleGroup>) -> Seq<GroupView> {
    Seq::new(s.len(), |i: int| s[i]@)
}

impl View for RuleRow {
    type V = RowView;

    open spec fn view(&self) -> RowView {
        RowView { source: self.source, groups: group_views(self.groups@) }
    }
}

/// What a list of rows is.
pub open spec fn row_views(s: Seq<RuleRow>) -> Seq<RowView> {
    Seq::new(s.len(), |i: int| s[i]@)
}

/// What a list of given rules is.
pub open spec fn rule_views(s: Seq<(u64, u64, Symbol, Symbol, Weight)>) -> Seq<RuleView> {
    Seq::new(s.len(), |i: int| (s[i].0, s[i].1, s[i].2@, s[i].3@, s[i].4))
}

/// The states of a list of final states.
pub open spec fn final_keys(finals: Seq<(u64, Weight)>) -> Seq<u64> {
    Seq::new(finals.len(), |i: int| finals[i].0)
}

/// The source states of a list of rows.
pub open spec fn row_keys(rules: Seq<RowView>) -> Seq<u64> {
    Seq::new(rules.len(), |i: int| rules[i].source)
}

/// The place of the first group with the given input symbol, or the number
/// of groups where there is none.
pub open spec fn group_slot(groups: Seq<GroupView>, input: SymbolView) -> int
    decreases groups.len(),
{
    if groups.len() == 0 {
        0
    } else {
        let p = group_slot(groups.drop_last(), input);
        if p < groups.len() - 1 {
            p
        } else if groups.last().input == input {
            groups.len() - 1
        } else {
            groups.len() as int
        }
    }
}

/// The final states after one more is given: a state that is there already
/// gets the new weight and keeps its place, a new one goes to the end.
pub open spec fn put_final(finals: Seq<(u64, Weight)>, node: u64, weight: Weight) -> Seq<
    (u64, Weight),
> {
    let p = key_slot(final_keys(finals), node);
    if p < finals.len() {
        finals.update(p, (node, weight))
    } else {
        finals.push((node, weight))
    }
}

/// The final states that a list of entries gives, taken in order.
pub open spec fn finals_of(entries: Seq<(u64, Weight)>) -> Seq<(u64, Weight)>
    decreases entries.len(),
{
    if entries.len() == 0 {
        entries
    } else {
        put_final(finals_of(entries.drop_last()), entries.last().0, entries.last().1)
    }
}

/// The groups of a state after one more transition is given: it joins the
/// group of its input symbol at the end, or founds a new last group.
pub open spec fn put_arc(groups: Seq<GroupView>, input: SymbolView, arc: ArcView) -> Seq<
    GroupView,
> {
    let g = group_slot(groups, input);
    if g < groups.len() {
        groups.update(g, GroupView { input: groups[g].input, arcs: groups[g].arcs.push(arc) })
    } else {
        groups.push(GroupView { input, arcs: seq![arc] })
    }
}

/// The rows after one more rule is given: it joins the row of its source
/// state, or founds a new last row.
pub open spec fn put_rule(rules: Seq<RowView>, rule: RuleView) -> Seq<RowView> {
    let r = key_slot(row_keys(rules), rule.0);
    let arc = ArcView { target: rule.1, output: rule.3, weight: rule.4 };
    if r < rules.len() {
        rules.update(
            r,
            RowView { source: rules[r].source, groups: put_arc(rules[r].groups, rule.2, arc) },
        )
    } else {
        rules.push(RowView { source: rule.0, groups: put_arc(Seq::empty(), rule.2, arc) })
    }
}

/// The rows that a list of rules gives, taken in order.
pub open spec fn rules_of(rules: Seq<RuleView>) -> Seq<RowView>
    decreases rules.len(),
{
    if rules.len() == 0 {
        Seq::empty()
    } else {
        put_rule(rules_of(rules.drop_last()), rules.last())
    }
}

/// The rules of one group, in order.
pub open spec fn flat_arcs(source: u64, input: SymbolView, arcs: Seq<ArcView>) -> Seq<RuleView> {
    Seq::new(arcs.len(), |j: int| (source, arcs[j].target, input, arcs[j].output, arcs[j].weight))
}

/// The rules of the groups of one state, group after group.
pub open spec fn flat_groups(source: u64, groups: Seq<GroupView>) -> Seq<RuleView>
    decreases groups.len(),
{
    if groups.len() == 0 {
        Seq::empty()
    } else {
        flat_groups(source, groups.drop_last()) + flat_arcs(
            source,
            groups.last().input,
            groups.last().arcs,
        )
    }
}

/// The rules of a transducer, row after row.
pub open spec fn flat_rules(rows: Seq<RowView>) -> Seq<RuleView>
    decreases rows.len(),
{
    if rows.len() == 0 {
        Seq::empty()
    } else {
        flat_rules(rows.drop_last()) + flat_groups(rows.last().source, rows.last().groups)
    }
}

/// Whether the groups of a row are as `put_arc` leaves them: there is a
/// group, no group is empty, and no two groups have the same input symbol.
pub open spec fn groups_valid(groups: Seq<GroupView>) -> bool {
    &&& groups.len() > 0
    &&& forall|i: int| 0 <= i < groups.len() ==> (#[trigger] groups[i]).arcs.len() > 0
    &&& forall|i: int, j: int|
        0 <= i < groups.len() && 0 <= j < groups.len() && i != j ==> (#[trigger] groups[i]).input
            != (#[trigger] groups[j]).input
}

impl FstView {
    /// Whether the parts are as the constructors leave them: no state is
    /// final twice or has two rows, every row is valid, and the alphabet is
    /// in order and repeats no symbol.
    pub open spec fn valid(self) -> bool {
        &&& final_keys(self.finals).no_duplicates()
        &&& row_keys(self.rules).no_duplicates()
        &&& forall|r: int| 0 <= r < self.rules.len() ==> groups_valid((#[trigger] self.rules[r]).groups)
        &&& in_order(self.alphabet)
        &&& self.alphabet.no_duplicates()
    }

    /// The weight of a final state, or `None` for a state that is not final.
    pub open spec fn final_weight(self, node: u64) -> Option<Weight> {
        let p = key_slot(final_keys(self.finals), node);
        if p < self.finals.len() {
            Some(self.finals[p].1)
        } else {
            None
        }
    }

    /// The groups of transitions out of a state; none for a state without
    /// rules.
    pub open spec fn groups_at(self, node: u64) -> Seq<GroupView> {
        let p = key_slot(row_keys(self.rules), node);
        if p < self.rules.len() {
            self.rules[p].groups
        } else {
            Seq::empty()
        }
    }
}

/// The slot of an input symbol lies among the groups or at their end, holds
/// the symbol unless it is the end, and no earlier group holds the symbol.
pub proof fn lemma_group_slot(groups: Seq<GroupView>, input: SymbolView)
    ensures
        0 <= group_slot(groups, input) <= groups.len(),
        group_slot(groups, input) < groups.len() ==> groups[group_slot(groups, input)].input
            == input,
        forall|j: int| 0 <= j < group_slot(groups, input) ==> (#[trigger] groups[j]).input != input,
    decreases groups.len(),
{
    if groups.len() > 0 {
        let t = groups.drop_last();
        lemma_group_slot(t, input);
        assert forall|j: int| 0 <= j < group_slot(groups, input) implies (#[trigger] groups[j]).input
            != input by {
            if j < t.len() {
                assert(t[j] == groups[j]);
            }
        }
    }
}

/// Giving one more final state leaves every state final at most once.
pub proof fn lemma_put_final(finals: Seq<(u64, Weight)>, node: u64, weight: Weight)
    requires
        final_keys(finals).no_duplicates(),
    ensures
        final_keys(put_final(finals, node, weight)).no_duplicates(),
        final_keys(put_final(finals, node, weight)) == if final_keys(finals).contains(node) {
            final_keys(finals)
        } else {
            final_keys(finals).push(node)
        },
{
    let keys = final_keys(finals);
    lemma_key_slot(keys, node);
    let after = final_keys(put_final(finals, node, weight));
    if keys.contains(node) {
        assert(after =~= keys);
    } else {
        assert(after =~= keys.push(node));
        assert forall|i: int, j: int|
            0 <= i < after.len() && 0 <= j < after.len() && i != j implies after[i] != after[j] by {
            if i < keys.len() && j < keys.len() {
                assert(keys[i] != keys[j]);
            }
        }
    }
}

/// Giving one more transition leaves the groups of a row valid.
pub proof fn lemma_put_arc(groups: Seq<GroupView>, input: SymbolView, arc: ArcView)
    requires
        groups.len() == 0 || groups_valid(groups),
    ensures
        groups_valid(put_arc(groups, input, arc)),
{
    lemma_group_slot(groups, input);
    let g = group_slot(groups, input);
    let after = put_arc(groups, input, arc);
    if groups.len() > 0 {
        assert forall|i: int| 0 <= i < after.len() implies (#[trigger] after[i]).arcs.len() > 0 by {
            if i < groups.len() && i != g {
                assert(groups[i].arcs.len() > 0);
            }
        }
        assert forall|i: int, j: int|
            0 <= i < after.len() && 0 <= j < after.len() && i != j implies (#[trigger] after[i]).input
            != (#[trigger] after[j]).input by {
            if i < groups.len() && j < groups.len() {
                assert(groups[i].input != groups[j].input);
            } else if i < groups.len() {
                assert(groups[i].input != input);
            } else {
                assert(groups[j].input != input);
            }
        }
    }
}

/// Giving one more rule leaves the rows valid and every state with at most
/// one row.
pub proof fn lemma_put_rule(rules: Seq<RowView>, rule: RuleView)
    requires
        row_keys(rules).no_duplicates(),
        forall|r: int| 0 <= r < rules.len() ==> groups_valid((#[trigger] rules[r]).groups),
    ensures
        row_keys(put_rule(rules, rule)).no_duplicates(),
        forall|r: int|
            0 <= r < put_rule(rules, rule).len() ==> groups_valid(
                (#[trigger] put_rule(rules, rule)[r]).groups,
            ),
        row_keys(put_rule(rules, rule)) == if row_keys(rules).contains(rule.0) {
            row_keys(rules)
        } else {
            row_keys(rules).push(rule.0)
        },
{
    let keys = row_keys(rules);
    lemma_key_slot(keys, rule.0);
    let p = key_slot(keys, rule.0);
    let arc = ArcView { target: rule.1, output: rule.3, weight: rule.4 };
    let after = put_rule(rules, rule);
    if p < rules.len() {
        assert(keys[p] == rule.0);
        assert(row_keys(after) =~= keys);
        assert(groups_valid(rules[p].groups));
        lemma_put_arc(rules[p].groups, rule.2, arc);
        assert forall|r: int| 0 <= r < after.len() implies groups_valid(
            (#[trigger] after[r]).groups,
        ) by {
            if r != p {
                assert(groups_valid(rules[r].groups));
            }
        }
    } else {
        assert(row_keys(after) =~= keys.push(rule.0));
        lemma_put_arc(Seq::empty(), rule.2, arc);
        assert forall|r: int| 0 <= r < after.len() implies groups_valid(
            (#[trigger] after[r]).groups,
        ) by {
            if r < rules.len() {
                assert(groups_valid(rules[r].groups));
            }
        }
        assert forall|i: int, j: int|
            0 <= i < row_keys(after).len() && 0 <= j < row_keys(after).len() && i
                != j implies row_keys(after)[i] != row_keys(after)[j] by {
            if i < keys.len() && j < keys.len() {
                assert(keys[i] != keys[j]);
            }
        }
    }
}

/// The place of the first group with the given input symbol.
pub fn find_group(groups: &Vec<RuleGroup>, input: &Symbol) -> (r: Option<usize>)
    ensures
        match r {
            Some(g) => g < groups.len() && g as int == group_slot(group_views(groups@), input@),
            None => group_slot(group_views(groups@), input@) == groups.len(),
        },
{
    let ghost all = group_views(groups@);
    let mut i: usize = 0;
    assert(all.subrange(0, 0).len() == 0);
    while i < groups.len()
        invariant
            i <= groups.len(),
            all == group_views(groups@),
            group_slot(all.subrange(0, i as int), input@) == i,
        decreases groups.len() - i,
    {
        let ghost next = all.subrange(0, i + 1);
        assert(next.drop_last() == all.subrange(0, i as int));
        assert(next.last() == groups@[i as int]@);
        if groups[i].input.same(input) {
            proof {
                lemma_slot_prefix(all, input@, i + 1);
            }
            return Some(i);
        }
        i += 1;
    }
    assert(all.subrange(0, groups.len() as int) == all);
    None
}

/// A slot that lies inside a prefix of the groups is the slot among all of
/// them.
pub proof fn lemma_slot_prefix(groups: Seq<GroupView>, input: SymbolView, n: int)
    requires
        0 <= n <= groups.len(),
        group_slot(groups.subrange(0, n), input) < n,
    ensures
        group_slot(groups, input) == group_slot(groups.subrange(0, n), input),
    decreases groups.len() - n,
{
    if n < groups.len() {
        let next = groups.subrange(0, n + 1);
        assert(next.drop_last() == groups.subrange(0, n));
        lemma_slot_prefix(groups, input, n + 1);
    } else {
        assert(groups.subrange(0, n) == groups);
    }
}

fn add_arc(groups: &mut Vec<RuleGroup>, input: Symbol, arc: Transition)
    ensures
        group_views(final(groups)@) == put_arc(group_views(old(groups)@), input@, arc@),
{
    let ghost before = group_views(groups@);
    match find_group(groups, &input) {
        Some(g) => {
            groups[g].transitions.push(arc);
            assert(group_views(groups@) =~= before.update(
                g as int,
                GroupView { input: before[g as int].input, arcs: before[g as int].arcs.push(arc@) },
            )) by {
                assert(arc_views(groups@[g as int].transitions@) =~= before[g as int].arcs.push(
                    arc@,
                ));
            }
        },
        None => {
            let mut transitions: Vec<Transition> = Vec::new();
            transitions.push(arc);
            groups.push(RuleGroup { input, transitions });
            assert(group_views(groups@) =~= before.push(
                GroupView { input: input@, arcs: seq![arc@] },
            )) by {
                assert(arc_views(groups@[groups.len() - 1].transitions@) =~= seq![arc@]);
            }
        },
    }
}

/// A finite-state transducer.
pub struct FST {
    finals: Vec<(u64, Weight)>,
    final_index: NodeSet,
    rules: Vec<RuleRow>,
    rule_index: NodeSet,
    symbols: Vec<Symbol>,
    debug: bool,
}

impl View for FST {
    type V = FstView;

    closed spec fn view(&self) -> FstView {
        FstView {
            finals: self.finals@,
            rules: row_views(self.rules@),
            alphabet: views(self.symbols@),
        }
    }
}

impl FST {
    /// Whether the transducer is as its constructors leave it.
    pub closed spec fn wf(&self) -> bool {
        &&& node_seq(self.final_index) == final_keys(self.finals@)
        &&& node_seq(self.rule_index) == row_keys(row_views(self.rules@))
        &&& self@.valid()
    }

    /// The debugging mark that the transducer was made with.
    pub closed spec fn debug_mark(&self) -> bool {
        self.debug
    }

    /// A transducer that is as its constructors leave it has valid parts.
    pub proof fn lemma_valid(&self)
        requires
            self.wf(),
        ensures
            self@.valid(),
    {
    }

    /// A transducer is the transducer whose parts it has.
    pub proof fn lemma_view_parts(&self, other: FstView)
        requires
            self@.finals == other.finals,
            self@.rules == other.rules,
            self@.alphabet == other.alphabet,
        ensures
            self@ == other,
    {
    }

    fn empty(debug: bool) -> (r: FST)
        ensures
            r.wf(),
            r@.finals.len() == 0,
            r@.rules.len() == 0,
            r@.alphabet.len() == 0,
            r.debug_mark() == debug,
    {
        let r = FST {
            finals: Vec::new(),
            final_index: node_set_new(),
            rules: Vec::new(),
            rule_index: node_set_new(),
            symbols: Vec::new(),
            debug,
        };
        assert(final_keys(r.finals@) =~= Seq::<u64>::empty());
        assert(row_keys(row_views(r.rules@)) =~= Seq::<u64>::empty());
        r
    }

    fn add_final(&mut self, node: u64, weight: Weight)
        requires
            old(self).wf(),
        ensures
            final(self).wf(),
            final(self)@.finals == put_final(old(self)@.finals, node, weight),
            final(self)@.rules == old(self)@.rules,
            final(self)@.alphabet == old(self)@.alphabet,
            final(self).debug_mark() == old(self).debug_mark(),
    {
        let ghost before = self.finals@;
        proof {
            lemma_key_slot(final_keys(before), node);
            lemma_put_final(before, node, weight);
        }
        let (place, fresh) = node_set_insert(&mut self.final_index, node);
        if fresh {
            self.finals.push((node, weight));
        } else {
            self.finals.set(place, (node, weight));
        }
    }

    fn add_rule(&mut self, source: u64, target: u64, top: Symbol, bottom: Symbol, weight: Weight)
        requires
            old(self).wf(),
        ensures
            final(self).wf(),
            final(self)@.finals == old(self)@.finals,
            final(self)@.rules == put_rule(
                old(self)@.rules,
                (source, target, top@, bottom@, weight),
            ),
            final(self)@.alphabet == old(self)@.alphabet,
            final(self).debug_mark() == old(self).debug_mark(),
    {
        let ghost before = row_views(self.rules@);
        let ghost rule = (source, target, top@, bottom@, weight);
        proof {
            lemma_key_slot(row_keys(before), source);
            lemma_put_rule(before, rule);
        }
        let (place, fresh) = node_set_insert(&mut self.rule_index, source);
        if fresh {
            self.rules.push(RuleRow { source, groups: Vec::new() });
            assert(group_views(self.rules@[place as int].groups@) =~= Seq::<GroupView>::empty());
        }
        let arc = Transition { target, output: bottom, weight };
        add_arc(&mut self.rules[place].groups, top, arc);
        assert(row_views(self.rules@) =~= put_rule(before, rule));
    }

    /// The transducer with the given final states, rules and symbols. Of a
    /// state that is given as final twice the last weight counts; the rules
    /// are grouped by source state and input symbol in the order in which
    /// these first occur; the alphabet is made of `symbols`.
    pub fn from_rules(
        final_states: Vec<(u64, Weight)>,
        rules: Vec<(u64, u64, Symbol, Symbol, Weight)>,
        symbols: Vec<Symbol>,
        debug: Option<bool>,
    ) -> (r: FST)
        ensures
            r.wf(),
            r@.finals == finals_of(final_states@),
            r@.rules == rules_of(rule_views(rules@)),
            r@.alphabet == alphabet_of(views(symbols@)),
            r.debug_mark() == (debug == Some(true)),
    {
        let mark = match debug {
            Some(d) => d,
            None => false,
        };
        let mut fst = FST::empty(mark);
        let mut i: usize = 0;
        assert(final_states@.subrange(0, 0) =~= Seq::empty());
        assert(fst@.finals =~= finals_of(final_states@.subrange(0, 0)));
        while i < final_states.len()
            invariant
                i <= final_states.len(),
                fst.wf(),
                fst@.finals == finals_of(final_states@.subrange(0, i as int)),
                fst@.rules.len() == 0,
                fst@.alphabet.len() == 0,
                fst.debug_mark() == mark,
            decreases final_states.len() - i,
        {
            let ghost next = final_states@.subrange(0, i + 1);
            assert(next.drop_last() == final_states@.subrange(0, i as int));
            let entry = final_states[i];
            fst.add_final(entry.0, entry.1);
            i += 1;
        }
        assert(final_states@.subrange(0, final_states.len() as int) == final_states@);
        let ghost given = rule_views(rules@);
        let mut j: usize = 0;
        assert(fst@.rules =~= rules_of(given.subrange(0, 0)));
        while j < rules.len()
            invariant
                j <= rules.len(),
                given == rule_views(rules@),
                fst.wf(),
                fst@.finals == finals_of(final_states@),
                fst@.rules == rules_of(given.subrange(0, j as int)),
                fst@.alphabet.len() == 0,
                fst.debug_mark() == mark,
            decreases rules.len() - j,
        {
            let ghost next = given.subrange(0, j + 1);
            assert(next.drop_last() == given.subrange(0, j as int));
            let rule = &rules[j];
            fst.add_rule(rule.0, rule.1, rule.2.clone(), rule.3.clone(), rule.4);
            j += 1;
        }
        assert(given.subrange(0, rules.len() as int) == given);
        proof {
            lemma_alphabet(views(symbols@));
        }
        fst.symbols = make_alphabet(&symbols);
        fst
    }

    /// The weight of a final state, or `None` for a state that is not final.
    pub fn final_weight(&self, node: u64) -> (r: Option<Weight>)
        requires
            self.wf(),
        ensures
            r == self@.final_weight(node),
    {
        proof {
            lemma_key_slot(final_keys(self.finals@), node);
        }
        match node_set_index_of(&self.final_index, node) {
            Some(i) => Some(self.finals[i].1),
            None => None,
        }
    }

    /// The groups of transitions out of a state, or `None` for a state
    /// without rules.
    pub fn groups(&self, node: u64) -> (r: Option<&Vec<RuleGroup>>)
        requires
            self.wf(),
        ensures
            match r {
                Some(g) => group_views(g@) == self@.groups_at(node) && g.len() > 0,
                None => self@.groups_at(node).len() == 0,
            },
    {
        proof {
            lemma_key_slot(row_keys(row_views(self.rules@)), node);
        }
        match node_set_index_of(&self.rule_index, node) {
            Some(i) => {
                assert(groups_valid(row_views(self.rules@)[i as int].groups));
                Some(&self.rules[i].groups)
            },
            None => None,
        }
    }

    /// The final states with their weights.
    pub fn final_states(&self) -> (r: &Vec<(u64, Weight)>)
        ensures
            r@ == self@.finals,
    {
        &self.finals
    }

    /// The rules, row by row.
    pub fn rules(&self) -> (r: &Vec<RuleRow>)
        ensures
            row_views(r@) == self@.rules,
    {
        &self.rules
    }

    /// The alphabet.
    pub fn symbols(&self) -> (r: &Vec<Symbol>)
        ensures
            views(r@) == self@.alphabet,
    {
        &self.symbols
    }

    /// The rules one by one: row after row, in each row group after group.
    pub fn transitions(&self) -> (r: Vec<(u64, u64, Symbol, Symbol, Weight)>)
        ensures
            rule_views(r@) == flat_rules(self@.rules),
    {
        let ghost rows = row_views(self.rules@);
        let mut r: Vec<(u64, u64, Symbol, Symbol, Weight)> = Vec::new();
        let mut i: usize = 0;
        assert(rows.subrange(0, 0) =~= Seq::empty());
        assert(rule_views(r@) =~= flat_rules(rows.subrange(0, 0)));
        while i < self.rules.len()
            invariant
                i <= self.rules.len(),
                rows == row_views(self.rules@),
                rule_views(r@) == flat_rules(rows.subrange(0, i as int)),
            decreases self.rules.len() - i,
        {
            let ghost next = rows.subrange(0, i + 1);
            assert(next.drop_last() == rows.subrange(0, i as int));
            assert(next.last() == self.rules@[i as int]@);
            let ghost done = rule_views(r@);
            let row = &self.rules[i];
            let ghost groups = group_views(row.groups@);
            let mut g: usize = 0;
            assert(groups.subrange(0, 0) =~= Seq::empty());
            assert(rule_views(r@) =~= done + flat_groups(row.source, groups.subrange(0, 0)));
            while g < row.groups.len()
                invariant
                    g <= row.groups.len(),
                    groups == group_views(row.groups@),
                    rule_views(r@) == done + flat_groups(row.source, groups.subrange(0, g as int)),
                decreases row.groups.len() - g,
            {
                let ghost next_groups = groups.subrange(0, g + 1);
                assert(next_groups.drop_last() == groups.subrange(0, g as int));
                assert(next_groups.last() == row.groups@[g as int]@);
                let ghost done_groups = rule_views(r@);
                let group = &row.groups[g];
                let ghost listed = flat_arcs(row.source, group.input@, arc_views(group.transitions@));
                let mut a: usize = 0;
                assert(rule_views(r@) =~= done_groups + listed.subrange(0, 0));
                while a < group.transitions.len()
                    invariant
                        a <= group.transitions.len(),
                        listed == flat_arcs(row.source, group.input@, arc_views(group.transitions@)),
                        rule_views(r@) == done_groups + listed.subrange(0, a as int),
                    decreases group.transitions.len() - a,
                {
                    let ghost before = rule_views(r@);
                    let arc = &group.transitions[a];
                    assert(arc_views(group.transitions@)[a as int] == arc@);
                    r.push((row.source, arc.target, group.input.clone(), arc.output.clone(), arc.weight));
                    assert(rule_views(r@) =~= before.push(listed[a as int]));
                    assert(listed.subrange(0, a + 1) =~= listed.subrange(0, a as int).push(
                        listed[a as int],
                    ));
                    assert(rule_views(r@) =~= done_groups + listed.subrange(0, a + 1));
                    a += 1;
                }
                assert(listed.subrange(0, group.transitions.len() as int) == listed);
                assert(rule_views(r@) =~= done + flat_groups(row.source, next_groups));
                g += 1;
            }
            assert(groups.subrange(0, row.groups.len() as int) == groups);
            assert(rule_views(r@) =~= flat_rules(next));
            i += 1;
        }
        assert(rows.subrange(0, self.rules.len() as int) == rows);
        r
    }

    /// The debugging mark that the transducer was made with.
    pub fn debug(&self) -> (r: bool)
        ensures
            r == self.debug_mark(),
    {
        self.debug
    }
}

} // verus!
