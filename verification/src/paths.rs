//! What a run gives the result that it records: the weight of the first
//! state with the weights of the transitions added in order, and the output
//! of the first state with what the transitions emitted behind it.

use crate::explore::{
    advanced, arrival, consumed_by, emitted, explore, explore_groups, head_of, Outcome,
    EPSILON_LIMIT,
};
use crate::runs::{applies, is_run_end, lemma_found_run, run, Move};
use crate::state::PathView;
use crate::symbol::{SpecialSymbol, SymbolView};
use crate::transducer::{ArcView, FstView, GroupView};
use crate::weight::ieee_sum;
use vstd::prelude::*;

verus! {

/// Where a run from `state` over `inputs` along `moves` ends, before its
/// result is recorded: the state reached, the mark, and the transitions
/// taken, in order. `None` where the moves are no run.
pub open spec fn passed(
    fst: FstView,
    inputs: Seq<SymbolView>,
    state: PathView,
    mark: bool,
    budget: nat,
    moves: Seq<Move>,
) -> Option<(PathView, bool, Seq<ArcView>)>
    decreases moves.len(),
{
    if moves.len() == 0 {
        if inputs.len() == 0 {
            Some((state, mark, Seq::empty()))
        } else {
            None
        }
    } else {
        let groups = fst.groups_at(state.node);
        let m = moves[0];
        if 0 <= m.group < groups.len() && 0 <= m.arc < groups[m.group].arcs.len() && applies(
            groups[m.group].input,
            inputs,
        ) {
            let input = groups[m.group].input;
            let arc = groups[m.group].arcs[m.arc];
            match advanced(state, input, arc, consumed_by(input, inputs)) {
                Some(next) => {
                    let rest = if input.is_epsilon() {
                        if budget == 0 {
                            None
                        } else {
                            passed(
                                fst,
                                inputs,
                                next,
                                inputs.len() == 0,
                                (budget - 1) as nat,
                                moves.drop_first(),
                            )
                        }
                    } else if inputs.len() == 0 {
                        None
                    } else {
                        passed(
                            fst,
                            inputs.drop_first(),
                            next,
                            false,
                            EPSILON_LIMIT as nat,
                            moves.drop_first(),
                        )
                    };
                    match rest {
                        Some((end, last, arcs)) => Some((end, last, seq![arc] + arcs)),
                        None => None,
                    }
                },
                None => None,
            }
        } else {
            None
        }
    }
}

/// The weight `bits` with the weights of the transitions added, one after
/// the other.
pub open spec fn summed(bits: u64, arcs: Seq<ArcView>) -> u64
    decreases arcs.len(),
{
    if arcs.len() == 0 {
        bits
    } else {
        summed(ieee_sum(bits, arcs[0].weight.bits), arcs.drop_first())
    }
}

/// Whether a symbol may be found in output: it consumes input, or it is an
/// unknown symbol of the input, which the identity symbol has handed on.
pub open spec fn emittable(s: SymbolView, inputs: Seq<SymbolView>) -> bool {
    !s.is_epsilon() || (s.is_unknown() && inputs.contains(s))
}

/// Whether `out` is `base` with further symbols behind it, each of which
/// may be found in output.
pub open spec fn grown(base: Seq<SymbolView>, out: Seq<SymbolView>, inputs: Seq<SymbolView>)
    -> bool {
    &&& base.len() <= out.len()
    &&& out.subrange(0, base.len() as int) == base
    &&& forall|k: int| base.len() <= k < out.len() ==> emittable(#[trigger] out[k], inputs)
}

/// What a run records is what is recorded where it ends.
pub proof fn lemma_run_passed(
    fst: FstView,
    inputs: Seq<SymbolView>,
    state: PathView,
    mark: bool,
    budget: nat,
    moves: Seq<Move>,
)
    ensures
        run(fst, inputs, state, mark, budget, moves) == match passed(
            fst,
            inputs,
            state,
            mark,
            budget,
            moves,
        ) {
            Some((end, last, _)) => Some(arrival(fst, end, last)),
            None => None,
        },
    decreases moves.len(),
{
    if moves.len() > 0 {
        let groups = fst.groups_at(state.node);
        let m = moves[0];
        if 0 <= m.group < groups.len() && 0 <= m.arc < groups[m.group].arcs.len() && applies(
            groups[m.group].input,
            inputs,
        ) {
            let input = groups[m.group].input;
            if let Some(next) = advanced(
                state,
                input,
                groups[m.group].arcs[m.arc],
                consumed_by(input, inputs),
            ) {
                if input.is_epsilon() {
                    if budget > 0 {
                        lemma_run_passed(
                            fst,
                            inputs,
                            next,
                            inputs.len() == 0,
                            (budget - 1) as nat,
                            moves.drop_first(),
                        );
                    }
                } else if inputs.len() > 0 {
                    lemma_run_passed(
                        fst,
                        inputs.drop_first(),
                        next,
                        false,
                        EPSILON_LIMIT as nat,
                        moves.drop_first(),
                    );
                }
            }
        }
    }
}

/// The weight at the end of a run is the weight at its beginning with the
/// weights of its transitions added in order.
pub proof fn lemma_passed_weight(
    fst: FstView,
    inputs: Seq<SymbolView>,
    state: PathView,
    mark: bool,
    budget: nat,
    moves: Seq<Move>,
)
    ensures
        passed(fst, inputs, state, mark, budget, moves) matches Some((end, _, arcs))
            ==> end.weight.bits == summed(state.weight.bits, arcs),
    decreases moves.len(),
{
    if moves.len() > 0 {
        let groups = fst.groups_at(state.node);
        let m = moves[0];
        if 0 <= m.group < groups.len() && 0 <= m.arc < groups[m.group].arcs.len() && applies(
            groups[m.group].input,
            inputs,
        ) {
            let input = groups[m.group].input;
            let arc = groups[m.group].arcs[m.arc];
            if let Some(next) = advanced(state, input, arc, consumed_by(input, inputs)) {
                let rest = if input.is_epsilon() {
                    if budget > 0 {
                        lemma_passed_weight(
                            fst,
                            inputs,
                            next,
                            inputs.len() == 0,
                            (budget - 1) as nat,
                            moves.drop_first(),
                        );
                        passed(
                            fst,
                            inputs,
                            next,
                            inputs.len() == 0,
                            (budget - 1) as nat,
                            moves.drop_first(),
                        )
                    } else {
                        None
                    }
                } else if inputs.len() > 0 {
                    lemma_passed_weight(
                        fst,
                        inputs.drop_first(),
                        next,
                        false,
                        EPSILON_LIMIT as nat,
                        moves.drop_first(),
                    );
                    passed(
                        fst,
                        inputs.drop_first(),
                        next,
                        false,
                        EPSILON_LIMIT as nat,
                        moves.drop_first(),
                    )
                } else {
                    None
                };
                if let Some((end, last, arcs)) = rest {
                    let all = seq![arc] + arcs;
                    assert(all[0] == arc);
                    assert(all.drop_first() =~= arcs);
                }
            }
        }
    }
}

/// The output at the end of a run is the output at its beginning with
/// further symbols behind it, each of which may be found in output.
pub proof fn lemma_passed_output(
    fst: FstView,
    all: Seq<SymbolView>,
    inputs: Seq<SymbolView>,
    state: PathView,
    mark: bool,
    budget: nat,
    moves: Seq<Move>,
)
    requires
        forall|k: int| 0 <= k < inputs.len() ==> all.contains(#[trigger] inputs[k]),
    ensures
        passed(fst, inputs, state, mark, budget, moves) matches Some((end, _, _)) ==> grown(
            state.output,
            end.output,
            all,
        ),
    decreases moves.len(),
{
    if moves.len() == 0 {
        assert(state.output.subrange(0, state.output.len() as int) =~= state.output);
    } else {
        let groups = fst.groups_at(state.node);
        let m = moves[0];
        if 0 <= m.group < groups.len() && 0 <= m.arc < groups[m.group].arcs.len() && applies(
            groups[m.group].input,
            inputs,
        ) {
            let input = groups[m.group].input;
            let arc = groups[m.group].arcs[m.arc];
            if let Some(next) = advanced(state, input, arc, consumed_by(input, inputs)) {
                let later = inputs.drop_first();
                if inputs.len() > 0 {
                    assert(all.contains(inputs[0]));
                    assert forall|k: int| 0 <= k < later.len() implies all.contains(
                        #[trigger] later[k],
                    ) by {
                        assert(later[k] == inputs[k + 1]);
                    }
                }
                let rest = if input.is_epsilon() {
                    if budget > 0 {
                        lemma_passed_output(
                            fst,
                            all,
                            inputs,
                            next,
                            inputs.len() == 0,
                            (budget - 1) as nat,
                            moves.drop_first(),
                        );
                        passed(
                            fst,
                            inputs,
                            next,
                            inputs.len() == 0,
                            (budget - 1) as nat,
                            moves.drop_first(),
                        )
                    } else {
                        None
                    }
                } else if inputs.len() > 0 {
                    lemma_passed_output(
                        fst,
                        all,
                        later,
                        next,
                        false,
                        EPSILON_LIMIT as nat,
                        moves.drop_first(),
                    );
                    passed(fst, later, next, false, EPSILON_LIMIT as nat, moves.drop_first())
                } else {
                    None
                };
                if let Some((end, last, arcs)) = rest {
                    let base = state.output;
                    let mid = next.output;
                    let out = end.output;
                    assert(mid == emitted(base, arc.output, consumed_by(input, inputs)));
                    assert(mid.subrange(0, base.len() as int) =~= base);
                    assert forall|k: int| base.len() <= k < mid.len() implies emittable(
                        #[trigger] mid[k],
                        all,
                    ) by {}
                    assert(out.subrange(0, base.len() as int) =~= base) by {
                        assert forall|k: int| 0 <= k < base.len() implies out[k] == base[k] by {
                            assert(out.subrange(0, mid.len() as int)[k] == mid[k]);
                            assert(mid.subrange(0, base.len() as int)[k] == base[k]);
                        }
                    }
                    assert forall|k: int| base.len() <= k < out.len() implies emittable(
                        #[trigger] out[k],
                        all,
                    ) by {
                        if k < mid.len() {
                            assert(out.subrange(0, mid.len() as int)[k] == mid[k]);
                        }
                    }
                }
            }
        }
    }
}

/// Whether the result `o` is what the run along `moves` records, with the
/// weight that the run gives it: the weight of the first state with the
/// weights of the transitions of the run added in order, and for a complete
/// path with the weight of its final state added last. The result is complete
/// exactly where the run ends in a final state.
pub open spec fn sums_up(
    fst: FstView,
    inputs: Seq<SymbolView>,
    state: PathView,
    mark: bool,
    budget: nat,
    moves: Seq<Move>,
    o: Outcome,
) -> bool {
    match passed(fst, inputs, state, mark, budget, moves) {
        Some((end, _, arcs)) => {
            &&& run(fst, inputs, state, mark, budget, moves) == Some(o)
            &&& o.2.node == end.node
            &&& o.0 == (fst.final_weight(end.node) is Some)
            &&& o.2.weight.bits == match fst.final_weight(end.node) {
                Some(w) => ieee_sum(summed(state.weight.bits, arcs), w.bits),
                None => summed(state.weight.bits, arcs),
            }
        },
        None => false,
    }
}

/// Weight integrity: every result of a search is recorded by a run of the
/// transducer, and has the weight that the run gives it.
pub proof fn lemma_weight_integrity(
    fst: FstView,
    inputs: Seq<SymbolView>,
    state: PathView,
    mark: bool,
    budget: nat,
    k: int,
)
    requires
        0 <= k < explore(fst, inputs, state, mark, budget).len(),
    ensures
        exists|moves: Seq<Move>|
            sums_up(fst, inputs, state, mark, budget, moves, explore(fst, inputs, state, mark, budget)[k]),
{
    let o = explore(fst, inputs, state, mark, budget)[k];
    lemma_found_run(fst, inputs, state, mark, budget);
    assert(is_run_end(fst, inputs, state, mark, budget, o));
    let moves = choose|moves: Seq<Move>|
        #[trigger] run(fst, inputs, state, mark, budget, moves) == Some(o);
    lemma_run_passed(fst, inputs, state, mark, budget, moves);
    lemma_passed_weight(fst, inputs, state, mark, budget, moves);
    assert(sums_up(fst, inputs, state, mark, budget, moves, o));
}

/// Output emission: the output of every result of a search is the output
/// of the first state with further symbols behind it. None of these is a
/// flag diacritic or the epsilon symbol, and none matches without consuming
/// unless it is an unknown symbol of the input, which the identity symbol has
/// handed on.
pub proof fn lemma_output_emission(
    fst: FstView,
    inputs: Seq<SymbolView>,
    state: PathView,
    mark: bool,
    budget: nat,
    k: int,
)
    requires
        0 <= k < explore(fst, inputs, state, mark, budget).len(),
    ensures
        grown(state.output, explore(fst, inputs, state, mark, budget)[k].2.output, inputs),
        forall|j: int|
            state.output.len() <= j < explore(fst, inputs, state, mark, budget)[k].2.output.len()
                ==> !((#[trigger] explore(fst, inputs, state, mark, budget)[k].2.output[j]) is Flag)
                && explore(fst, inputs, state, mark, budget)[k].2.output[j] != SymbolView::Special(
                SpecialSymbol::EPSILON,
            ),
{
    let o = explore(fst, inputs, state, mark, budget)[k];
    lemma_found_run(fst, inputs, state, mark, budget);
    assert(is_run_end(fst, inputs, state, mark, budget, o));
    let moves = choose|moves: Seq<Move>|
        #[trigger] run(fst, inputs, state, mark, budget, moves) == Some(o);
    lemma_run_passed(fst, inputs, state, mark, budget, moves);
    assert forall|i: int| 0 <= i < inputs.len() implies inputs.contains(#[trigger] inputs[i]) by {}
    lemma_passed_output(fst, inputs, inputs, state, mark, budget, moves);
    let out = o.2.output;
    assert forall|j: int| state.output.len() <= j < out.len() implies !((#[trigger] out[j]) is Flag)
        && out[j] != SymbolView::Special(SpecialSymbol::EPSILON) by {
        assert(emittable(out[j], inputs));
    }
}

/// Where no group from the `i`-th on has an input symbol that matches
/// without consuming or is the first input symbol, following the groups
/// gives no result.
pub proof fn lemma_no_group_taken(
    fst: FstView,
    inputs: Seq<SymbolView>,
    state: PathView,
    groups: Seq<GroupView>,
    budget: nat,
    i: nat,
)
    requires
        forall|g: int|
            i <= g < groups.len() ==> !(#[trigger] groups[g]).input.is_epsilon() && head_of(inputs)
                != Some(groups[g].input),
    ensures
        explore_groups(fst, inputs, state, groups, budget, i).len() == 0,
    decreases groups.len() - i,
{
    if i < groups.len() {
        assert(!groups[i as int].input.is_epsilon());
        lemma_no_group_taken(fst, inputs, state, groups, budget, i + 1);
    }
}

/// Unknown handling: a known input symbol that no rule of the state names
/// ends the path, whatever rules the state has for the unknown symbol and
/// the identity symbol; these take an unknown input symbol only.
pub proof fn lemma_known_symbol_refused(
    fst: FstView,
    inputs: Seq<SymbolView>,
    state: PathView,
    mark: bool,
    budget: nat,
)
    requires
        inputs.len() > 0,
        !inputs[0].is_unknown(),
        forall|g: int|
            0 <= g < fst.groups_at(state.node).len() ==> !(#[trigger] fst.groups_at(
                state.node,
            )[g]).input.is_epsilon() && fst.groups_at(state.node)[g].input != inputs[0],
    ensures
        explore(fst, inputs, state, mark, budget).len() == 0,
{
    lemma_no_group_taken(fst, inputs, state, fst.groups_at(state.node), budget, 0);
}

} // verus!
