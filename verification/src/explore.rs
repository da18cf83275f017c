//! The search: all the paths that a transducer offers for a sequence of
//! input symbols, depth first and in the order of the rules.

use crate::alphabet::views;
use crate::flags::{update_flags, updated};
use crate::state::{copy_symbols, FSTState, PathView};
use crate::symbol::{SpecialSymbol, Symbol, SymbolView};
use crate::transducer::{
    arc_views, find_group, group_slot, group_views, ArcView, FstView, GroupView, Transition,
    FST,
};
use crate::weight::{ieee_sum, Weight};
use vstd::prelude::*;

verus! {

/// How many transitions that consume no input a path may take in a row. A
/// path that would take more ends there, so that no cycle of such
/// transitions keeps the search from ending.
pub const EPSILON_LIMIT: usize = 1024;

/// One result of the search: whether the path ended in a final state, the
/// mark handed down to it, and the state of the path.
pub type Outcome = (bool, bool, PathView);

/// What a list of results is.
pub open spec fn outcomes(r: Seq<(bool, bool, FSTState)>) -> Seq<Outcome> {
    Seq::new(r.len(), |i: int| (r[i].0, r[i].1, r[i].2@))
}

/// The first of the remaining input symbols, if any remain.
pub open spec fn head_of(inputs: Seq<SymbolView>) -> Option<SymbolView> {
    if inputs.len() == 0 {
        None
    } else {
        Some(inputs[0])
    }
}

/// The input symbol that a transition under `input` consumes: none where
/// `input` matches without consuming, and else the first of the remaining
/// input symbols.
pub open spec fn consumed_by(input: SymbolView, inputs: Seq<SymbolView>) -> Option<SymbolView> {
    if input.is_epsilon() {
        None
    } else {
        head_of(inputs)
    }
}

/// The output after a transition that emits `out`: the identity symbol
/// stands for the input symbol that the transition consumed, where it
/// consumed one; any other symbol that matches without consuming emits
/// nothing; every other symbol is emitted itself.
pub open spec fn emitted(output: Seq<SymbolView>, out: SymbolView, head: Option<SymbolView>) -> Seq<
    SymbolView,
> {
    if out == SymbolView::Special(SpecialSymbol::IDENTITY) && head is Some {
        output.push(head->0)
    } else if out.is_epsilon() {
        output
    } else {
        output.push(out)
    }
}

/// The state after a transition under the input symbol `input`, or `None`
/// where a flag diacritic on either side bars it. The input symbol acts on
/// the input register and the output symbol on the output register.
pub open spec fn advanced(
    state: PathView,
    input: SymbolView,
    arc: ArcView,
    head: Option<SymbolView>,
) -> Option<PathView> {
    match (updated(arc.output, state.output_flags), updated(input, state.input_flags)) {
        (Some(output_flags), Some(input_flags)) => Some(
            PathView {
                node: arc.target,
                weight: Weight { bits: ieee_sum(state.weight.bits, arc.weight.bits) },
                input_flags,
                output_flags,
                output: emitted(state.output, arc.output, head),
            },
        ),
        _ => None,
    }
}

/// What is recorded for a path that stands in `state` when the input is
/// used up: in a final state the path is complete and gains the weight of
/// that state.
pub open spec fn arrival(fst: FstView, state: PathView, mark: bool) -> Outcome {
    match fst.final_weight(state.node) {
        Some(w) => (
            true,
            mark,
            PathView {
                node: state.node,
                weight: Weight { bits: ieee_sum(state.weight.bits, w.bits) },
                input_flags: state.input_flags,
                output_flags: state.output_flags,
                output: state.output,
            },
        ),
        None => (false, mark, state),
    }
}

/// The results of the search from `state` over the remaining `inputs`.
///
/// With the input used up, the state itself is recorded first. Then the
/// groups of the state are tried in order: a group whose input symbol matches
/// without consuming, or is the first remaining input symbol, is followed.
/// Where the first remaining input symbol is unknown, the group of the
/// unknown symbol and then the group of the identity symbol are followed
/// too. `budget` is the number of transitions that consume no input which the
/// path may still take in a row.
pub open spec fn explore(
    fst: FstView,
    inputs: Seq<SymbolView>,
    state: PathView,
    mark: bool,
    budget: nat,
) -> Seq<Outcome>
    decreases inputs.len(), budget, 2nat, 0nat,
{
    let here = if inputs.len() == 0 {
        seq![arrival(fst, state, mark)]
    } else {
        Seq::empty()
    };
    let groups = fst.groups_at(state.node);
    here + explore_groups(fst, inputs, state, groups, budget, 0) + explore_wild(
        fst,
        inputs,
        state,
        groups,
        budget,
    )
}

/// The results of following the groups from the `i`-th on.
pub open spec fn explore_groups(
    fst: FstView,
    inputs: Seq<SymbolView>,
    state: PathView,
    groups: Seq<GroupView>,
    budget: nat,
    i: nat,
) -> Seq<Outcome>
    decreases inputs.len(), budget, 1nat, groups.len() - i,
{
    if i >= groups.len() {
        Seq::empty()
    } else {
        let group = groups[i as int];
        let taken = if group.input.is_epsilon() || head_of(inputs) == Some(group.input) {
            explore_arcs(fst, inputs, state, group.arcs, group.input, budget, 0)
        } else {
            Seq::empty()
        };
        taken + explore_groups(fst, inputs, state, groups, budget, i + 1)
    }
}

/// The results of following the groups of the unknown symbol and of the
/// identity symbol, where the first remaining input symbol is unknown.
pub open spec fn explore_wild(
    fst: FstView,
    inputs: Seq<SymbolView>,
    state: PathView,
    groups: Seq<GroupView>,
    budget: nat,
) -> Seq<Outcome>
    decreases inputs.len(), budget, 1nat, 0nat,
{
    if inputs.len() > 0 && inputs[0].is_unknown() {
        let unknown = SymbolView::Special(SpecialSymbol::UNKNOWN);
        let identity = SymbolView::Special(SpecialSymbol::IDENTITY);
        let u = group_slot(groups, unknown);
        let i = group_slot(groups, identity);
        let first = if 0 <= u < groups.len() {
            explore_arcs(fst, inputs, state, groups[u].arcs, unknown, budget, 0)
        } else {
            Seq::empty()
        };
        let second = if 0 <= i < groups.len() {
            explore_arcs(fst, inputs, state, groups[i].arcs, identity, budget, 0)
        } else {
            Seq::empty()
        };
        first + second
    } else {
        Seq::empty()
    }
}

/// The results of following the transitions of one group from the `j`-th on.
/// A transition under a symbol that matches without consuming leaves the
/// input as it is and uses up one of the budget; any other consumes the first
/// input symbol and restores the budget.
pub open spec fn explore_arcs(
    fst: FstView,
    inputs: Seq<SymbolView>,
    state: PathView,
    arcs: Seq<ArcView>,
    input: SymbolView,
    budget: nat,
    j: nat,
) -> Seq<Outcome>
    decreases inputs.len(), budget, 0nat, arcs.len() - j,
{
    if j >= arcs.len() {
        Seq::empty()
    } else {
        let taken = match advanced(state, input, arcs[j as int], consumed_by(input, inputs)) {
            Some(next) => if input.is_epsilon() {
                if budget == 0 {
                    Seq::empty()
                } else {
                    explore(fst, inputs, next, inputs.len() == 0, (budget - 1) as nat)
                }
            } else if inputs.len() == 0 {
                Seq::empty()
            } else {
                explore(fst, inputs.drop_first(), next, false, EPSILON_LIMIT as nat)
            },
            None => Seq::empty(),
        };
        taken + explore_arcs(fst, inputs, state, arcs, input, budget, j + 1)
    }
}

impl FST {
    fn step(
        &self,
        state: &FSTState,
        input: &Symbol,
        arc: &Transition,
        head: Option<&Symbol>,
    ) -> (r: Option<FSTState>)
        ensures
            match r {
                Some(next) => advanced(
                    state@,
                    input@,
                    arc@,
                    match head {
                        Some(h) => Some(h@),
                        None => None,
                    },
                ) == Some(next@),
                None => advanced(
                    state@,
                    input@,
                    arc@,
                    match head {
                        Some(h) => Some(h@),
                        None => None,
                    },
                ) is None,
            },
    {
        let output_flags = match update_flags(&arc.output, &state.output_flags) {
            Some(f) => f,
            None => {
                return None;
            },
        };
        let input_flags = match update_flags(input, &state.input_flags) {
            Some(f) => f,
            None => {
                return None;
            },
        };
        let mut output_symbols = copy_symbols(&state.output_symbols);
        let ghost before = views(output_symbols@);
        let identity = match &arc.output {
            Symbol::Special(SpecialSymbol::IDENTITY) => true,
            _ => false,
        };
        assert(identity == (arc.output@ == SymbolView::Special(SpecialSymbol::IDENTITY)));
        match head {
            Some(h) if identity => {
                output_symbols.push(h.clone());
                assert(views(output_symbols@) =~= before.push(h@));
            },
            _ => {
                if !arc.output.is_epsilon() {
                    output_symbols.push(arc.output.clone());
                    assert(views(output_symbols@) =~= before.push(arc.output@));
                }
            },
        }
        Some(
            FSTState {
                state_num: arc.target,
                path_weight: state.path_weight.plus(&arc.weight),
                input_flags,
                output_flags,
                output_symbols,
            },
        )
    }

    fn run_arcs(
        &self,
        inputs: &Vec<Symbol>,
        pos: usize,
        state: &FSTState,
        arcs: &Vec<Transition>,
        input: &Symbol,
        budget: usize,
        result: &mut Vec<(bool, bool, FSTState)>,
    )
        requires
            self.wf(),
            pos <= inputs.len(),
        ensures
            outcomes(final(result)@) == outcomes(old(result)@) + explore_arcs(
                self@,
                views(inputs@).subrange(pos as int, inputs.len() as int),
                state@,
                arc_views(arcs@),
                input@,
                budget as nat,
                0,
            ),
        decreases inputs.len() - pos, budget, 0nat,
    {
        let ghost rest = views(inputs@).subrange(pos as int, inputs.len() as int);
        let ghost all = explore_arcs(self@, rest, state@, arc_views(arcs@), input@, budget as nat, 0);
        let ghost start = outcomes(result@);
        let head: Option<&Symbol> = if !input.is_epsilon() && pos < inputs.len() {
            Some(&inputs[pos])
        } else {
            None
        };
        assert(consumed_by(input@, rest) == match head {
            Some(h) => Some(h@),
            None => None,
        });
        let mut j: usize = 0;
        while j < arcs.len()
            invariant
                j <= arcs.len(),
                self.wf(),
                pos <= inputs.len(),
                rest == views(inputs@).subrange(pos as int, inputs.len() as int),
                consumed_by(input@, rest) == match head {
                    Some(h) => Some(h@),
                    None => None,
                },
                all == explore_arcs(self@, rest, state@, arc_views(arcs@), input@, budget as nat, 0),
                outcomes(result@) + explore_arcs(
                    self@,
                    rest,
                    state@,
                    arc_views(arcs@),
                    input@,
                    budget as nat,
                    j as nat,
                ) == start + all,
            decreases arcs.len() - j,
        {
            let ghost before = outcomes(result@);
            let ghost later = explore_arcs(
                self@,
                rest,
                state@,
                arc_views(arcs@),
                input@,
                budget as nat,
                (j + 1) as nat,
            );
            assert(arc_views(arcs@)[j as int] == arcs@[j as int]@);
            match self.step(state, input, &arcs[j], head) {
                Some(next) => {
                    if input.is_epsilon() {
                        if budget > 0 {
                            self.run_from(inputs, pos, &next, pos == inputs.len(), budget - 1, result);
                        }
                    } else if pos < inputs.len() {
                        assert(rest.drop_first() == views(inputs@).subrange(
                            pos + 1,
                            inputs.len() as int,
                        ));
                        self.run_from(inputs, pos + 1, &next, false, EPSILON_LIMIT, result);
                    }
                },
                None => {},
            }
            assert(outcomes(result@) + later =~= before + explore_arcs(
                self@,
                rest,
                state@,
                arc_views(arcs@),
                input@,
                budget as nat,
                j as nat,
            ));
            j += 1;
        }
        assert(outcomes(result@) =~= start + all);
    }

    fn run_from(
        &self,
        inputs: &Vec<Symbol>,
        pos: usize,
        state: &FSTState,
        mark: bool,
        budget: usize,
        result: &mut Vec<(bool, bool, FSTState)>,
    )
        requires
            self.wf(),
            pos <= inputs.len(),
        ensures
            outcomes(final(result)@) == outcomes(old(result)@) + explore(
                self@,
                views(inputs@).subrange(pos as int, inputs.len() as int),
                state@,
                mark,
                budget as nat,
            ),
        decreases inputs.len() - pos, budget, 1nat,
    {
        let ghost rest = views(inputs@).subrange(pos as int, inputs.len() as int);
        let ghost start = outcomes(result@);
        if pos == inputs.len() {
            let entry = match self.final_weight(state.state_num) {
                Some(w) => (
                    true,
                    mark,
                    FSTState {
                        state_num: state.state_num,
                        path_weight: state.path_weight.plus(&w),
                        input_flags: state.input_flags.clone(),
                        output_flags: state.output_flags.clone(),
                        output_symbols: copy_symbols(&state.output_symbols),
                    },
                ),
                None => (false, mark, state.clone()),
            };
            result.push(entry);
            assert(outcomes(result@) =~= start + seq![arrival(self@, state@, mark)]);
        } else {
            assert(outcomes(result@) =~= start + Seq::<Outcome>::empty());
        }
        let ghost here = outcomes(result@);
        let groups = match self.groups(state.state_num) {
            Some(g) => g,
            None => {
                assert(here + explore_groups(
                    self@,
                    rest,
                    state@,
                    self@.groups_at(state@.node),
                    budget as nat,
                    0,
                ) + explore_wild(self@, rest, state@, self@.groups_at(state@.node), budget as nat)
                    =~= here);
                return ;
            },
        };
        let ghost gv = group_views(groups@);
        let ghost listed = explore_groups(self@, rest, state@, gv, budget as nat, 0);
        let mut i: usize = 0;
        while i < groups.len()
            invariant
                i <= groups.len(),
                self.wf(),
                pos <= inputs.len(),
                rest == views(inputs@).subrange(pos as int, inputs.len() as int),
                gv == group_views(groups@),
                listed == explore_groups(self@, rest, state@, gv, budget as nat, 0),
                outcomes(result@) + explore_groups(self@, rest, state@, gv, budget as nat, i as nat)
                    == here + listed,
            decreases groups.len() - i,
        {
            let ghost before = outcomes(result@);
            let ghost later = explore_groups(self@, rest, state@, gv, budget as nat, (i + 1) as nat);
            let group = &groups[i];
            assert(gv[i as int] == group@);
            let matches_head = if pos < inputs.len() {
                inputs[pos].same(&group.input)
            } else {
                false
            };
            assert(matches_head == (head_of(rest) == Some(group.input@)));
            if group.input.is_epsilon() || matches_head {
                self.run_arcs(inputs, pos, state, &group.transitions, &group.input, budget, result);
            }
            assert(outcomes(result@) + later =~= before + explore_groups(
                self@,
                rest,
                state@,
                gv,
                budget as nat,
                i as nat,
            ));
            i += 1;
        }
        assert(outcomes(result@) =~= here + listed);
        if pos < inputs.len() && inputs[pos].is_unknown() {
            let unknown = Symbol::Special(SpecialSymbol::UNKNOWN);
            let identity = Symbol::Special(SpecialSymbol::IDENTITY);
            match find_group(groups, &unknown) {
                Some(u) => {
                    assert(gv[u as int] == groups@[u as int]@);
                    self.run_arcs(
                        inputs,
                        pos,
                        state,
                        &groups[u].transitions,
                        &unknown,
                        budget,
                        result,
                    );
                },
                None => {},
            }
            let ghost middle = outcomes(result@);
            match find_group(groups, &identity) {
                Some(k) => {
                    assert(gv[k as int] == groups@[k as int]@);
                    self.run_arcs(
                        inputs,
                        pos,
                        state,
                        &groups[k].transitions,
                        &identity,
                        budget,
                        result,
                    );
                },
                None => {},
            }
            assert(outcomes(result@) =~= here + listed + explore_wild(
                self@,
                rest,
                state@,
                gv,
                budget as nat,
            ));
        } else {
            assert(outcomes(result@) =~= here + listed + explore_wild(
                self@,
                rest,
                state@,
                gv,
                budget as nat,
            ));
        }
    }

    /// The input symbols of the groups of transitions out of the state that
    /// a path has reached, in the order of the groups.
    pub fn get_input_symbols(&self, state: FSTState) -> (r: Vec<Symbol>)
        requires
            self.wf(),
        ensures
            r.len() == self@.groups_at(state@.node).len(),
            forall|i: int|
                0 <= i < r.len() ==> (#[trigger] r@[i])@ == self@.groups_at(state@.node)[i].input,
    {
        let mut r: Vec<Symbol> = Vec::new();
        match self.groups(state.state_num) {
            Some(groups) => {
                let ghost gv = group_views(groups@);
                let mut i: usize = 0;
                while i < groups.len()
                    invariant
                        i <= groups.len(),
                        r.len() == i,
                        gv == group_views(groups@),
                        forall|k: int| 0 <= k < i ==> (#[trigger] r@[k])@ == gv[k].input,
                    decreases groups.len() - i,
                {
                    assert(gv[i as int] == groups@[i as int]@);
                    r.push(groups[i].input.clone());
                    i += 1;
                }
            },
            None => {},
        }
        r
    }

    /// Runs the transducer over `input_symbols` from `state` and returns
    /// every path that uses up the input, complete or not, in the order of
    /// the search.
    pub fn run_fst(
        &self,
        input_symbols: Vec<Symbol>,
        state: FSTState,
        post_input_advance: bool,
    ) -> (r: Vec<(bool, bool, FSTState)>)
        requires
            self.wf(),
        ensures
            outcomes(r@) == explore(
                self@,
                views(input_symbols@),
                state@,
                post_input_advance,
                EPSILON_LIMIT as nat,
            ),
    {
        let mut result: Vec<(bool, bool, FSTState)> = Vec::new();
        assert(views(input_symbols@).subrange(0, input_symbols.len() as int) == views(
            input_symbols@,
        ));
        self.run_from(&input_symbols, 0, &state, post_input_advance, EPSILON_LIMIT, &mut result);
        assert(outcomes(result@) =~= explore(
            self@,
            views(input_symbols@),
            state@,
            post_input_advance,
            EPSILON_LIMIT as nat,
        ));
        result
    }
}

} // verus!
