//! The results of a search are the ends of the runs of the transducer over
//! the input: a run follows transitions that match without consuming, or
//! that consume the next input symbol, until the input is used up.

use crate::explore::{
    advanced, arrival, consumed_by, explore, explore_arcs, explore_groups, explore_wild, head_of,
    Outcome, EPSILON_LIMIT,
};
use crate::state::PathView;
use crate::symbol::{SpecialSymbol, SymbolView};
use crate::transducer::{group_slot, groups_valid, lemma_group_slot, FstView, GroupView};
use vstd::prelude::*;

verus! {

/// One move of a run: the place of a group among the groups of the state,
/// and the place of a transition in that group.
pub struct Move {
    pub group: int,
    pub arc: int,
}

/// Whether a group with the input symbol `input` may be followed over the
/// remaining `inputs`: the symbol matches without consuming, or is the next
/// input symbol, or is the unknown symbol or the identity symbol while the
/// next input symbol is unknown.
pub open spec fn applies(input: SymbolView, inputs: Seq<SymbolView>) -> bool {
    ||| input.is_epsilon()
    ||| head_of(inputs) == Some(input)
    ||| (inputs.len() > 0 && inputs[0].is_unknown() && (input == SymbolView::Special(
        SpecialSymbol::UNKNOWN,
    ) || input == SymbolView::Special(SpecialSymbol::IDENTITY)))
}

/// What a run from `state` over `inputs` along `moves` records, or `None`
/// where it is no run: a move names no transition of the state, its group
/// may not be followed, a flag bars it, it would be one too many in a row
/// that consume nothing, or the moves end before the input does.
pub open spec fn run(
    fst: FstView,
    inputs: Seq<SymbolView>,
    state: PathView,
    mark: bool,
    budget: nat,
    moves: Seq<Move>,
) -> Option<Outcome>
    decreases moves.len(),
{
    if moves.len() == 0 {
        if inputs.len() == 0 {
            Some(arrival(fst, state, mark))
        } else {
            None
        }
    } else {
        let groups = fst.groups_at(state.node);
        let m = moves[0];
        if 0 <= m.group < groups.len() && 0 <= m.arc < groups[m.group].arcs.len() && applies(
            groups[m.group].input,
            inputs,
        ) {
            let input = groups[m.group].input;
            match advanced(state, input, groups[m.group].arcs[m.arc], consumed_by(input, inputs)) {
                Some(next) => if input.is_epsilon() {
                    if budget == 0 {
                        None
                    } else {
                        run(
                            fst,
                            inputs,
                            next,
                            inputs.len() == 0,
                            (budget - 1) as nat,
                            moves.drop_first(),
                        )
                    }
                } else if inputs.len() == 0 {
                    None
                } else {
                    run(
                        fst,
                        inputs.drop_first(),
                        next,
                        false,
                        EPSILON_LIMIT as nat,
                        moves.drop_first(),
                    )
                },
                None => None,
            }
        } else {
            None
        }
    }
}

/// The results of following the transitions of a group from the `j`-th on
/// hold the results of following each of them.
pub proof fn lemma_arcs_hold(
    fst: FstView,
    inputs: Seq<SymbolView>,
    state: PathView,
    group: GroupView,
    budget: nat,
    j: nat,
    k: int,
    o: Outcome,
)
    requires
        j <= k < group.arcs.len(),
        ({
            let taken = match advanced(
                state,
                group.input,
                group.arcs[k],
                consumed_by(group.input, inputs),
            ) {
                Some(next) => if group.input.is_epsilon() {
                    if budget == 0 {
                        Seq::empty()
                    } else {
                        explore(fst, inputs, next, inputs.len() == 0, (budget - 1) as nat)
                    }
                } else if inputs.len() == 0 {
                    Seq::empty()
                } else {
                    explore(fst, inputs.drop_first(), next, false, EPSILON_LIMIT as nat)
                },
                None => Seq::empty(),
            };
            taken.contains(o)
        }),
    ensures
        explore_arcs(fst, inputs, state, group.arcs, group.input, budget, j).contains(o),
    decreases k - j,
{
    let all = explore_arcs(fst, inputs, state, group.arcs, group.input, budget, j);
    let later = explore_arcs(fst, inputs, state, group.arcs, group.input, budget, j + 1);
    let taken = match advanced(state, group.input, group.arcs[j as int], consumed_by(group.input, inputs)) {
        Some(next) => if group.input.is_epsilon() {
            if budget == 0 {
                Seq::empty()
            } else {
                explore(fst, inputs, next, inputs.len() == 0, (budget - 1) as nat)
            }
        } else if inputs.len() == 0 {
            Seq::empty()
        } else {
            explore(fst, inputs.drop_first(), next, false, EPSILON_LIMIT as nat)
        },
        None => Seq::empty(),
    };
    assert(all == taken + later);
    if j < k {
        lemma_arcs_hold(fst, inputs, state, group, budget, j + 1, k, o);
        let i = choose|i: int| 0 <= i < later.len() && later[i] == o;
        assert(all[taken.len() + i] == o);
    } else {
        let i = choose|i: int| 0 <= i < taken.len() && taken[i] == o;
        assert(all[i] == o);
    }
}

/// The results of following the groups from the `i`-th on hold the results
/// of following each group whose input symbol matches without consuming or
/// is the next input symbol.
pub proof fn lemma_groups_hold(
    fst: FstView,
    inputs: Seq<SymbolView>,
    state: PathView,
    groups: Seq<GroupView>,
    budget: nat,
    i: nat,
    g: int,
    o: Outcome,
)
    requires
        i <= g < groups.len(),
        groups[g].input.is_epsilon() || head_of(inputs) == Some(groups[g].input),
        explore_arcs(fst, inputs, state, groups[g].arcs, groups[g].input, budget, 0).contains(o),
    ensures
        explore_groups(fst, inputs, state, groups, budget, i).contains(o),
    decreases g - i,
{
    let all = explore_groups(fst, inputs, state, groups, budget, i);
    let later = explore_groups(fst, inputs, state, groups, budget, i + 1);
    let group = groups[i as int];
    let taken = if group.input.is_epsilon() || head_of(inputs) == Some(group.input) {
        explore_arcs(fst, inputs, state, group.arcs, group.input, budget, 0)
    } else {
        Seq::empty()
    };
    assert(all == taken + later);
    if i < g {
        lemma_groups_hold(fst, inputs, state, groups, budget, i + 1, g, o);
        let k = choose|k: int| 0 <= k < later.len() && later[k] == o;
        assert(all[taken.len() + k] == o);
    } else {
        let k = choose|k: int| 0 <= k < taken.len() && taken[k] == o;
        assert(all[k] == o);
    }
}

/// Completeness: what a run records is among the results of the search.
pub proof fn lemma_run_found(
    fst: FstView,
    inputs: Seq<SymbolView>,
    state: PathView,
    mark: bool,
    budget: nat,
    moves: Seq<Move>,
)
    requires
        fst.valid(),
    ensures
        run(fst, inputs, state, mark, budget, moves) matches Some(o) ==> explore(
            fst,
            inputs,
            state,
            mark,
            budget,
        ).contains(o),
    decreases moves.len(),
{
    let groups = fst.groups_at(state.node);
    let here = if inputs.len() == 0 {
        seq![arrival(fst, state, mark)]
    } else {
        Seq::empty()
    };
    let listed = explore_groups(fst, inputs, state, groups, budget, 0);
    let wild = explore_wild(fst, inputs, state, groups, budget);
    let all = explore(fst, inputs, state, mark, budget);
    assert(all == here + listed + wild);
    if let Some(o) = run(fst, inputs, state, mark, budget, moves) {
        if moves.len() == 0 {
            assert(here[0] == o);
            assert(all[0] == o);
        } else {
            let m = moves[0];
            let group = groups[m.group];
            let input = group.input;
            let next = advanced(state, input, group.arcs[m.arc], consumed_by(input, inputs))->0;
            if input.is_epsilon() {
                lemma_run_found(
                    fst,
                    inputs,
                    next,
                    inputs.len() == 0,
                    (budget - 1) as nat,
                    moves.drop_first(),
                );
            } else {
                lemma_run_found(
                    fst,
                    inputs.drop_first(),
                    next,
                    false,
                    EPSILON_LIMIT as nat,
                    moves.drop_first(),
                );
            }
            lemma_arcs_hold(fst, inputs, state, group, budget, 0, m.arc, o);
            let followed = explore_arcs(fst, inputs, state, group.arcs, input, budget, 0);
            assert(followed.contains(o));
            if input.is_epsilon() || head_of(inputs) == Some(input) {
                lemma_groups_hold(fst, inputs, state, groups, budget, 0, m.group, o);
                let k = choose|k: int| 0 <= k < listed.len() && listed[k] == o;
                assert(all[here.len() + k] == o);
            } else {
                let unknown = SymbolView::Special(SpecialSymbol::UNKNOWN);
                let identity = SymbolView::Special(SpecialSymbol::IDENTITY);
                let u = group_slot(groups, unknown);
                let i = group_slot(groups, identity);
                lemma_group_slot(groups, unknown);
                lemma_group_slot(groups, identity);
                assert(groups.len() > 0);
                let p = key_place(fst, state.node);
                crate::nodes::lemma_key_slot(crate::transducer::row_keys(fst.rules), state.node);
                assert(0 <= p < fst.rules.len());
                assert(groups_valid(fst.rules[p].groups));
                let first = if 0 <= u < groups.len() {
                    explore_arcs(fst, inputs, state, groups[u].arcs, unknown, budget, 0)
                } else {
                    Seq::empty()
                };
                let second = if 0 <= i < groups.len() {
                    explore_arcs(fst, inputs, state, groups[i].arcs, identity, budget, 0)
                } else {
                    Seq::empty()
                };
                assert(wild == first + second);
                if input == unknown {
                    assert(u == m.group) by {
                        if u != m.group {
                            assert(groups[u].input != groups[m.group].input);
                        }
                    }
                    let k = choose|k: int| 0 <= k < first.len() && first[k] == o;
                    assert(wild[k] == o);
                } else {
                    assert(i == m.group) by {
                        if i != m.group {
                            assert(groups[i].input != groups[m.group].input);
                        }
                    }
                    let k = choose|k: int| 0 <= k < second.len() && second[k] == o;
                    assert(wild[first.len() + k] == o);
                }
                let k = choose|k: int| 0 <= k < wild.len() && wild[k] == o;
                assert(all[here.len() + listed.len() + k] == o);
            }
        }
    }
}

/// The place of the row of a state that has rules.
pub open spec fn key_place(fst: FstView, node: u64) -> int {
    crate::nodes::key_slot(crate::transducer::row_keys(fst.rules), node)
}

/// Whether some run records the result `o`.
pub open spec fn is_run_end(
    fst: FstView,
    inputs: Seq<SymbolView>,
    state: PathView,
    mark: bool,
    budget: nat,
    o: Outcome,
) -> bool {
    exists|moves: Seq<Move>| #[trigger] run(fst, inputs, state, mark, budget, moves) == Some(o)
}

/// Whether every one of the results is recorded by a run.
pub open spec fn all_run_ends(
    fst: FstView,
    inputs: Seq<SymbolView>,
    state: PathView,
    mark: bool,
    budget: nat,
    outs: Seq<Outcome>,
) -> bool {
    forall|k: int|
        0 <= k < outs.len() ==> is_run_end(fst, inputs, state, mark, budget, #[trigger] outs[k])
}

proof fn lemma_concat_ends(
    fst: FstView,
    inputs: Seq<SymbolView>,
    state: PathView,
    mark: bool,
    budget: nat,
    a: Seq<Outcome>,
    b: Seq<Outcome>,
)
    requires
        all_run_ends(fst, inputs, state, mark, budget, a),
        all_run_ends(fst, inputs, state, mark, budget, b),
    ensures
        all_run_ends(fst, inputs, state, mark, budget, a + b),
{
    assert forall|k: int| 0 <= k < (a + b).len() implies is_run_end(
        fst,
        inputs,
        state,
        mark,
        budget,
        #[trigger] (a + b)[k],
    ) by {
        if k < a.len() {
            assert((a + b)[k] == a[k]);
        } else {
            assert((a + b)[k] == b[k - a.len()]);
        }
    }
}

/// Soundness: every result of the search is recorded by a run.
pub proof fn lemma_found_run(
    fst: FstView,
    inputs: Seq<SymbolView>,
    state: PathView,
    mark: bool,
    budget: nat,
)
    ensures
        all_run_ends(fst, inputs, state, mark, budget, explore(fst, inputs, state, mark, budget)),
    decreases inputs.len(), budget, 2nat, 0nat,
{
    let groups = fst.groups_at(state.node);
    let here = if inputs.len() == 0 {
        seq![arrival(fst, state, mark)]
    } else {
        Seq::empty()
    };
    assert(all_run_ends(fst, inputs, state, mark, budget, here)) by {
        if inputs.len() == 0 {
            let o = arrival(fst, state, mark);
            assert(run(fst, inputs, state, mark, budget, Seq::<Move>::empty()) == Some(o));
            assert(here[0] == o);
        }
    }
    lemma_found_groups(fst, inputs, state, mark, budget, 0);
    lemma_found_wild(fst, inputs, state, mark, budget);
    let listed = explore_groups(fst, inputs, state, groups, budget, 0);
    let wild = explore_wild(fst, inputs, state, groups, budget);
    lemma_concat_ends(fst, inputs, state, mark, budget, here, listed);
    lemma_concat_ends(fst, inputs, state, mark, budget, here + listed, wild);
}

/// The same of the results of following the groups from the `i`-th on.
pub proof fn lemma_found_groups(
    fst: FstView,
    inputs: Seq<SymbolView>,
    state: PathView,
    mark: bool,
    budget: nat,
    i: nat,
)
    ensures
        all_run_ends(
            fst,
            inputs,
            state,
            mark,
            budget,
            explore_groups(fst, inputs, state, fst.groups_at(state.node), budget, i),
        ),
    decreases inputs.len(), budget, 1nat, fst.groups_at(state.node).len() - i,
{
    let groups = fst.groups_at(state.node);
    if i < groups.len() {
        let group = groups[i as int];
        let taken = if group.input.is_epsilon() || head_of(inputs) == Some(group.input) {
            explore_arcs(fst, inputs, state, group.arcs, group.input, budget, 0)
        } else {
            Seq::empty()
        };
        if group.input.is_epsilon() || head_of(inputs) == Some(group.input) {
            lemma_found_arcs(fst, inputs, state, mark, i as int, budget, 0);
        }
        lemma_found_groups(fst, inputs, state, mark, budget, i + 1);
        lemma_concat_ends(
            fst,
            inputs,
            state,
            mark,
            budget,
            taken,
            explore_groups(fst, inputs, state, groups, budget, i + 1),
        );
    }
}

/// The same of the results of following the groups of the unknown symbol
/// and of the identity symbol.
pub proof fn lemma_found_wild(
    fst: FstView,
    inputs: Seq<SymbolView>,
    state: PathView,
    mark: bool,
    budget: nat,
)
    ensures
        all_run_ends(
            fst,
            inputs,
            state,
            mark,
            budget,
            explore_wild(fst, inputs, state, fst.groups_at(state.node), budget),
        ),
    decreases inputs.len(), budget, 1nat, 0nat,
{
    let groups = fst.groups_at(state.node);
    if inputs.len() > 0 && inputs[0].is_unknown() {
        let unknown = SymbolView::Special(SpecialSymbol::UNKNOWN);
        let identity = SymbolView::Special(SpecialSymbol::IDENTITY);
        let u = group_slot(groups, unknown);
        let i = group_slot(groups, identity);
        lemma_group_slot(groups, unknown);
        lemma_group_slot(groups, identity);
        let first = if 0 <= u < groups.len() {
            explore_arcs(fst, inputs, state, groups[u].arcs, unknown, budget, 0)
        } else {
            Seq::empty()
        };
        let second = if 0 <= i < groups.len() {
            explore_arcs(fst, inputs, state, groups[i].arcs, identity, budget, 0)
        } else {
            Seq::empty()
        };
        if 0 <= u < groups.len() {
            lemma_found_arcs(fst, inputs, state, mark, u, budget, 0);
        }
        if 0 <= i < groups.len() {
            lemma_found_arcs(fst, inputs, state, mark, i, budget, 0);
        }
        lemma_concat_ends(fst, inputs, state, mark, budget, first, second);
    }
}

/// The same of the results of following the transitions of the `g`-th
/// group from the `j`-th on, where the group may be followed.
pub proof fn lemma_found_arcs(
    fst: FstView,
    inputs: Seq<SymbolView>,
    state: PathView,
    mark: bool,
    g: int,
    budget: nat,
    j: nat,
)
    requires
        0 <= g < fst.groups_at(state.node).len(),
        applies(fst.groups_at(state.node)[g].input, inputs),
    ensures
        all_run_ends(
            fst,
            inputs,
            state,
            mark,
            budget,
            explore_arcs(
                fst,
                inputs,
                state,
                fst.groups_at(state.node)[g].arcs,
                fst.groups_at(state.node)[g].input,
                budget,
                j,
            ),
        ),
    decreases inputs.len(), budget, 0nat, fst.groups_at(state.node)[g].arcs.len() - j,
{
    let group = fst.groups_at(state.node)[g];
    let arcs = group.arcs;
    let input = group.input;
    if j < arcs.len() {
        let arc = arcs[j as int];
        let step = Move { group: g, arc: j as int };
        let taken = match advanced(state, input, arc, consumed_by(input, inputs)) {
            Some(next) => if input.is_epsilon() {
                if budget == 0 {
                    Seq::empty()
                } else {
                    explore(fst, inputs, next, inputs.len() == 0, (budget - 1) as nat)
                }
            } else if inputs.len() == 0 {
                Seq::empty()
            } else {
                explore(fst, inputs.drop_first(), next, false, EPSILON_LIMIT as nat)
            },
            None => Seq::empty(),
        };
        match advanced(state, input, arc, consumed_by(input, inputs)) {
            Some(next) => {
                if input.is_epsilon() {
                    if budget > 0 {
                        lemma_found_run(fst, inputs, next, inputs.len() == 0, (budget - 1) as nat);
                    }
                } else if inputs.len() > 0 {
                    lemma_found_run(fst, inputs.drop_first(), next, false, EPSILON_LIMIT as nat);
                }
            },
            None => {},
        }
        assert(all_run_ends(fst, inputs, state, mark, budget, taken)) by {
            assert forall|k: int| 0 <= k < taken.len() implies is_run_end(
                fst,
                inputs,
                state,
                mark,
                budget,
                #[trigger] taken[k],
            ) by {
                let next = advanced(state, input, arc, consumed_by(input, inputs))->0;
                let at_end = inputs.len() == 0;
                let left = (budget - 1) as nat;
                let full = EPSILON_LIMIT as nat;
                let rest = if input.is_epsilon() {
                    choose|moves: Seq<Move>|
                        #[trigger] run(fst, inputs, next, at_end, left, moves) == Some(taken[k])
                } else {
                    choose|moves: Seq<Move>|
                        #[trigger] run(fst, inputs.drop_first(), next, false, full, moves) == Some(
                            taken[k],
                        )
                };
                if input.is_epsilon() {
                    assert(is_run_end(
                        fst,
                        inputs,
                        next,
                        inputs.len() == 0,
                        (budget - 1) as nat,
                        taken[k],
                    ));
                } else {
                    assert(is_run_end(
                        fst,
                        inputs.drop_first(),
                        next,
                        false,
                        EPSILON_LIMIT as nat,
                        taken[k],
                    ));
                }
                let moves = seq![step] + rest;
                assert(moves[0] == step);
                assert(moves.drop_first() =~= rest);
                assert(run(fst, inputs, state, mark, budget, moves) == Some(taken[k]));
            }
        }
        lemma_found_arcs(fst, inputs, state, mark, g, budget, j + 1);
        lemma_concat_ends(
            fst,
            inputs,
            state,
            mark,
            budget,
            taken,
            explore_arcs(fst, inputs, state, arcs, input, budget, j + 1),
        );
    }
}

} // verus!
