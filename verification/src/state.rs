//! The state of one path through a transducer.

use crate::alphabet::views;
use crate::flags::{FlagMap, RegisterView};
use crate::symbol::{Symbol, SymbolView};
use crate::text::chars_of;
use crate::weight::Weight;
use vstd::prelude::*;

verus! {

/// Where a path stands: the state it has reached, the weight gathered on the
/// way, the flag registers of the input side and of the output side, and the
/// symbols emitted so far.
#[derive(Debug, PartialEq, Hash)]
pub struct FSTState {
    pub state_num: u64,
    pub path_weight: Weight,
    pub input_flags: FlagMap,
    pub output_flags: FlagMap,
    pub output_symbols: Vec<Symbol>,
}

/// What the state of a path is.
pub struct PathView {
    pub node: u64,
    pub weight: Weight,
    pub input_flags: RegisterView,
    pub output_flags: RegisterView,
    pub output: Seq<SymbolView>,
}

impl View for FSTState {
    type V = PathView;

    open spec fn view(&self) -> PathView {
        PathView {
            node: self.state_num,
            weight: self.path_weight,
            input_flags: self.input_flags@,
            output_flags: self.output_flags@,
            output: views(self.output_symbols@),
        }
    }
}

/// The register in which the given flags are set, a later entry for a flag
/// replacing an earlier one.
pub open spec fn register_of(entries: Seq<(String, (bool, String))>) -> RegisterView
    decreases entries.len(),
{
    if entries.len() == 0 {
        Map::empty()
    } else {
        register_of(entries.drop_last()).insert(
            entries.last().0@,
            (entries.last().1.0, Some(entries.last().1.1@)),
        )
    }
}

/// A copy of a list of symbols.
pub fn copy_symbols(symbols: &Vec<Symbol>) -> (r: Vec<Symbol>)
    ensures
        views(r@) == views(symbols@),
{
    let mut r: Vec<Symbol> = Vec::new();
    let mut i: usize = 0;
    while i < symbols.len()
        invariant
            i <= symbols.len(),
            r.len() == i,
            forall|j: int| 0 <= j < i ==> r@[j]@ == symbols@[j]@,
        decreases symbols.len() - i,
    {
        r.push(symbols[i].clone());
        i += 1;
    }
    assert(views(r@) =~= views(symbols@));
    r
}

fn register_from(entries: &Vec<(String, (bool, String))>) -> (r: FlagMap)
    ensures
        r@ == register_of(entries@),
{
    let mut r = FlagMap::new();
    let mut i: usize = 0;
    assert(entries@.subrange(0, 0) =~= Seq::empty());
    while i < entries.len()
        invariant
            i <= entries.len(),
            r@ == register_of(entries@.subrange(0, i as int)),
        decreases entries.len() - i,
    {
        let ghost next = entries@.subrange(0, i + 1);
        assert(next.drop_last() == entries@.subrange(0, i as int));
        let entry = &entries[i];
        let polarity = (entry.1).0;
        r = r.with(chars_of(entry.0.as_str()), polarity, Some(chars_of((entry.1).1.as_str())));
        i += 1;
    }
    assert(entries@.subrange(0, entries.len() as int) == entries@);
    r
}

impl Clone for FSTState {
    fn clone(&self) -> (r: Self)
        ensures
            r@ == self@,
    {
        FSTState {
            state_num: self.state_num,
            path_weight: self.path_weight,
            input_flags: self.input_flags.clone(),
            output_flags: self.output_flags.clone(),
            output_symbols: copy_symbols(&self.output_symbols),
        }
    }
}

impl Default for FSTState {
    /// The state of a path that has not begun: state 0, weight zero, no flag
    /// set, nothing emitted.
    fn default() -> (r: Self)
        ensures
            r@ == (PathView {
                node: 0,
                weight: Weight { bits: 0 },
                input_flags: Map::empty(),
                output_flags: Map::empty(),
                output: Seq::empty(),
            }),
    {
        let r = FSTState {
            state_num: 0,
            path_weight: Weight::zero(),
            input_flags: FlagMap::new(),
            output_flags: FlagMap::new(),
            output_symbols: Vec::new(),
        };
        assert(views(r.output_symbols@) =~= Seq::empty());
        r
    }
}

impl FSTState {
    /// The state of a path with the given parts; each list of flags gives
    /// the name of a flag with its polarity and value.
    pub fn new(
        state: u64,
        path_weight: Weight,
        input_flags: Vec<(String, (bool, String))>,
        output_flags: Vec<(String, (bool, String))>,
        output_symbols: Vec<Symbol>,
    ) -> (r: Self)
        ensures
            r@ == (PathView {
                node: state,
                weight: path_weight,
                input_flags: register_of(input_flags@),
                output_flags: register_of(output_flags@),
                output: views(output_symbols@),
            }),
    {
        FSTState {
            state_num: state,
            path_weight,
            input_flags: register_from(&input_flags),
            output_flags: register_from(&output_flags),
            output_symbols,
        }
    }
}

} // verus!
