//! Lookup: a text is split into symbols, the transducer is run over them,
//! and the complete paths are turned into a list of output texts with their
//! weights, lightest first, each text once. The texts that have been seen
//! are kept in an insertion-ordered hash set.

use crate::error::KfstError;
use crate::explore::{explore, outcomes, Outcome, EPSILON_LIMIT};
use crate::state::{FSTState, PathView};
use crate::symbol::Symbol;
use crate::text::{append_chars, string_of};
use crate::tokenize::{spelled, tokens};
use crate::transducer::{FstView, FST};
use crate::alphabet::views;
use crate::weight::Weight;
use vstd::prelude::*;

verus! {

/// An output text with the weight of its path.
pub type Analysis = (Seq<char>, Weight);

/// What a list of texts with weights is.
pub open spec fn item_views(s: Seq<(Vec<char>, Weight)>) -> Seq<Analysis> {
    Seq::new(s.len(), |i: int| (s[i].0@, s[i].1))
}

/// What a list of results of a lookup is.
pub open spec fn analysis_views(s: Seq<(String, Weight)>) -> Seq<Analysis> {
    Seq::new(s.len(), |i: int| (s[i].0@, s[i].1))
}

/// The output texts and weights of the complete paths among the results of
/// a search, in the order of the search.
pub open spec fn analyses(outs: Seq<Outcome>) -> Seq<Analysis>
    decreases outs.len(),
{
    if outs.len() == 0 {
        Seq::empty()
    } else if outs.last().0 {
        analyses(outs.drop_last()).push((spelled(outs.last().2.output), outs.last().2.weight))
    } else {
        analyses(outs.drop_last())
    }
}

/// Where an item of weight `w` goes in a list ordered by weight: after the
/// last item that is no heavier.
pub open spec fn weight_slot(s: Seq<Analysis>, w: Weight) -> int
    decreases s.len(),
{
    if s.len() == 0 {
        0
    } else if s.last().1.rank() <= w.rank() {
        s.len() as int
    } else {
        weight_slot(s.drop_last(), w)
    }
}

/// The items of `s` ordered by weight, lightest first; items of one weight
/// keep the order they had.
pub open spec fn ranked(s: Seq<Analysis>) -> Seq<Analysis>
    decreases s.len(),
{
    if s.len() == 0 {
        s
    } else {
        let r = ranked(s.drop_last());
        r.insert(weight_slot(r, s.last().1), s.last())
    }
}

/// Whether some item of `s` has the text `t`.
pub open spec fn has_text(s: Seq<Analysis>, t: Seq<char>) -> bool {
    exists|i: int| 0 <= i < s.len() && (#[trigger] s[i]).0 == t
}

/// The items of `s` without those whose text an earlier item has.
pub open spec fn unique(s: Seq<Analysis>) -> Seq<Analysis>
    decreases s.len(),
{
    if s.len() == 0 {
        s
    } else if has_text(unique(s.drop_last()), s.last().0) {
        unique(s.drop_last())
    } else {
        unique(s.drop_last()).push(s.last())
    }
}

/// Whether no item of `s` is heavier than a later one.
pub open spec fn by_weight(s: Seq<Analysis>) -> bool {
    forall|i: int, j: int|
        0 <= i < j < s.len() ==> (#[trigger] s[i]).1.rank() <= (#[trigger] s[j]).1.rank()
}

/// Whether no two items of `s` have the same text.
pub open spec fn texts_differ(s: Seq<Analysis>) -> bool {
    forall|i: int, j: int|
        0 <= i < s.len() && 0 <= j < s.len() && i != j ==> (#[trigger] s[i]).0 != (#[trigger] s[j]).0
}

/// What a lookup returns: `None` where the text cannot be split into
/// symbols, and otherwise the analyses of the complete paths of the search
/// from `state`, ordered by weight, each text at its first place only.
pub open spec fn lookup_of(fst: FstView, text: Seq<char>, state: PathView, allow_unknown: bool)
    -> Option<Seq<Analysis>> {
    match tokens(fst.alphabet, text, 0, allow_unknown) {
        Some(symbols) => Some(
            unique(ranked(analyses(explore(fst, symbols, state, false, EPSILON_LIMIT as nat)))),
        ),
        None => None,
    }
}

/// The slot of a weight lies in the list or at its end; the item before it,
/// if there is one, is no heavier, and every item from it on is heavier.
pub proof fn lemma_weight_slot(s: Seq<Analysis>, w: Weight)
    ensures
        0 <= weight_slot(s, w) <= s.len(),
        weight_slot(s, w) > 0 ==> s[weight_slot(s, w) - 1].1.rank() <= w.rank(),
        forall|j: int| weight_slot(s, w) <= j < s.len() ==> (#[trigger] s[j]).1.rank() > w.rank(),
    decreases s.len(),
{
    if s.len() > 0 && !(s.last().1.rank() <= w.rank()) {
        lemma_weight_slot(s.drop_last(), w);
        assert forall|j: int| weight_slot(s, w) <= j < s.len() implies (#[trigger] s[j]).1.rank()
            > w.rank() by {
            if j < s.len() - 1 {
                assert(s.drop_last()[j] == s[j]);
            }
        }
    }
}

/// Ordering by weight leaves no item before a lighter one.
pub proof fn lemma_ranked(s: Seq<Analysis>)
    ensures
        by_weight(ranked(s)),
        ranked(s).len() == s.len(),
    decreases s.len(),
{
    if s.len() > 0 {
        let r = ranked(s.drop_last());
        lemma_ranked(s.drop_last());
        lemma_weight_slot(r, s.last().1);
        let p = weight_slot(r, s.last().1);
        let q = ranked(s);
        assert forall|i: int, j: int| 0 <= i < j < q.len() implies (#[trigger] q[i]).1.rank() <= (
        #[trigger] q[j]).1.rank() by {
            if j < p {
                assert(r[i].1.rank() <= r[j].1.rank());
            } else if j == p {
                if i < p - 1 {
                    assert(r[i].1.rank() <= r[p - 1].1.rank());
                }
            } else if i < p {
                assert(r[i].1.rank() <= r[j - 1].1.rank());
            } else if i == p {
                assert(r[j - 1].1.rank() > s.last().1.rank());
            } else {
                assert(r[i - 1].1.rank() <= r[j - 1].1.rank());
            }
        }
    }
}

/// Dropping repeated texts leaves no two items with one text, takes every
/// item from the list, and keeps a list ordered by weight so.
pub proof fn lemma_unique(s: Seq<Analysis>)
    ensures
        texts_differ(unique(s)),
        forall|i: int| 0 <= i < unique(s).len() ==> s.contains(#[trigger] unique(s)[i]),
        by_weight(s) ==> by_weight(unique(s)),
    decreases s.len(),
{
    if s.len() > 0 {
        let t = s.drop_last();
        let u = unique(t);
        let q = unique(s);
        lemma_unique(t);
        assert forall|i: int| 0 <= i < q.len() implies s.contains(#[trigger] q[i]) by {
            if i < u.len() {
                assert(t.contains(u[i]));
                let k = choose|k: int| 0 <= k < t.len() && t[k] == u[i];
                assert(s[k] == q[i]);
            } else {
                assert(s[s.len() - 1] == q[i]);
            }
        }
        if !has_text(u, s.last().0) {
            assert forall|i: int, j: int|
                0 <= i < q.len() && 0 <= j < q.len() && i != j implies (#[trigger] q[i]).0 != (
            #[trigger] q[j]).0 by {
                if i < u.len() && j < u.len() {
                    assert(u[i].0 != u[j].0);
                } else if i < u.len() {
                    assert(u[i].0 != s.last().0);
                } else {
                    assert(u[j].0 != s.last().0);
                }
            }
        }
        if by_weight(s) {
            assert(by_weight(t)) by {
                assert forall|i: int, j: int| 0 <= i < j < t.len() implies (#[trigger] t[i]).1.rank()
                    <= (#[trigger] t[j]).1.rank() by {
                    assert(s[i].1.rank() <= s[j].1.rank());
                }
            }
            assert forall|i: int, j: int| 0 <= i < j < q.len() implies (#[trigger] q[i]).1.rank()
                <= (#[trigger] q[j]).1.rank() by {
                if j < u.len() {
                    assert(u[i].1.rank() <= u[j].1.rank());
                } else {
                    assert(t.contains(u[i]));
                    let k = choose|k: int| 0 <= k < t.len() && t[k] == u[i];
                    assert(s[k].1.rank() <= s[s.len() - 1].1.rank());
                }
            }
        }
    }
}

/// The results of a lookup are ordered by weight, lightest first, and no
/// two of them have the same text.
pub proof fn lemma_lookup_ordered(
    fst: FstView,
    text: Seq<char>,
    state: PathView,
    allow_unknown: bool,
)
    ensures
        lookup_of(fst, text, state, allow_unknown) matches Some(r) ==> by_weight(r) && texts_differ(
            r,
        ),
{
    if let Some(symbols) = tokens(fst.alphabet, text, 0, allow_unknown) {
        let a = analyses(explore(fst, symbols, state, false, EPSILON_LIMIT as nat));
        lemma_ranked(a);
        lemma_unique(ranked(a));
    }
}

/// The texts of the given symbols, one after the other.
pub fn spell(symbols: &Vec<Symbol>) -> (r: Vec<char>)
    ensures
        r@ == spelled(views(symbols@)),
{
    let ghost all = views(symbols@);
    let mut r: Vec<char> = Vec::new();
    let mut i: usize = 0;
    assert(all.subrange(0, 0) =~= Seq::empty());
    while i < symbols.len()
        invariant
            i <= symbols.len(),
            all == views(symbols@),
            r@ == spelled(all.subrange(0, i as int)),
        decreases symbols.len() - i,
    {
        let ghost next = all.subrange(0, i + 1);
        assert(next.drop_last() == all.subrange(0, i as int));
        assert(next.last() == symbols@[i as int]@);
        let t = symbols[i].text();
        append_chars(&mut r, &t);
        i += 1;
    }
    assert(all.subrange(0, symbols.len() as int) == all);
    r
}

/// Collects the output texts and weights of the complete paths.
pub fn collect_analyses(outs: &Vec<(bool, bool, FSTState)>) -> (r: Vec<(Vec<char>, Weight)>)
    ensures
        item_views(r@) == analyses(outcomes(outs@)),
{
    let ghost all = outcomes(outs@);
    let mut r: Vec<(Vec<char>, Weight)> = Vec::new();
    let mut i: usize = 0;
    assert(all.subrange(0, 0) =~= Seq::empty());
    assert(item_views(r@) =~= analyses(all.subrange(0, 0)));
    while i < outs.len()
        invariant
            i <= outs.len(),
            all == outcomes(outs@),
            item_views(r@) == analyses(all.subrange(0, i as int)),
        decreases outs.len() - i,
    {
        let ghost next = all.subrange(0, i + 1);
        let ghost before = item_views(r@);
        assert(next.drop_last() == all.subrange(0, i as int));
        assert(next.last() == all[i as int]);
        let entry = &outs[i];
        if entry.0 {
            let text = spell(&entry.2.output_symbols);
            let ghost item = (text@, entry.2.path_weight);
            r.push((text, entry.2.path_weight));
            assert(item_views(r@) =~= before.push(item));
        }
        i += 1;
    }
    assert(all.subrange(0, outs.len() as int) == all);
    r
}

fn copy_text(t: &Vec<char>) -> (r: Vec<char>)
    ensures
        r@ == t@,
{
    crate::text::slice_all(t)
}

/// Orders items by weight, lightest first; items of one weight keep the
/// order they had.
pub fn rank_items(items: &Vec<(Vec<char>, Weight)>) -> (r: Vec<(Vec<char>, Weight)>)
    ensures
        item_views(r@) == ranked(item_views(items@)),
{
    let ghost all = item_views(items@);
    let mut r: Vec<(Vec<char>, Weight)> = Vec::new();
    let mut i: usize = 0;
    assert(all.subrange(0, 0) =~= Seq::empty());
    assert(item_views(r@) =~= ranked(all.subrange(0, 0)));
    while i < items.len()
        invariant
            i <= items.len(),
            all == item_views(items@),
            item_views(r@) == ranked(all.subrange(0, i as int)),
        decreases items.len() - i,
    {
        let ghost next = all.subrange(0, i + 1);
        assert(next.drop_last() == all.subrange(0, i as int));
        assert(next.last() == all[i as int]);
        let w = items[i].1;
        let ghost before = item_views(r@);
        let mut p: usize = r.len();
        assert(before.subrange(0, p as int) == before);
        while p > 0 && !r[p - 1].1.at_most(&w)
            invariant
                p <= r.len(),
                before == item_views(r@),
                weight_slot(before, w) == weight_slot(before.subrange(0, p as int), w),
            decreases p,
        {
            let ghost head = before.subrange(0, p as int);
            assert(head.last() == before[p - 1]);
            assert(head.drop_last() == before.subrange(0, p - 1));
            p -= 1;
        }
        let ghost head = before.subrange(0, p as int);
        assert(weight_slot(head, w) == p) by {
            if p > 0 {
                assert(head.last() == before[p - 1]);
            }
        }
        let item = (copy_text(&items[i].0), w);
        let ghost iv = (item.0@, item.1);
        r.insert(p, item);
        assert(item_views(r@) =~= before.insert(p as int, iv));
        i += 1;
    }
    assert(all.subrange(0, items.len() as int) == all);
    r
}

/// A set of texts in the order of insertion, which tells in constant time
/// whether a text has been seen.
pub type TextSet = indexmap::IndexSet<Vec<char>>;

/// The texts of a set, in the order of insertion.
pub uninterp spec fn text_seq(s: TextSet) -> Seq<Seq<char>>;

/// `IndexSet::new`: a set without items.
#[verifier::external_body]
fn text_set_new() -> (r: TextSet)
    ensures
        text_seq(r) == Seq::<Seq<char>>::empty(),
{
    indexmap::IndexSet::new()
}

/// `IndexSet::contains`: whether the item is in the set.
#[verifier::external_body]
fn text_set_contains(s: &TextSet, text: &Vec<char>) -> (r: bool)
    ensures
        r == text_seq(*s).contains(text@),
{
    s.contains(text)
}

/// `IndexSet::insert`: where the item is in the set already, the set stays
/// as it is and the call returns `false`; otherwise the item is added at the
/// end and the call returns `true`.
#[verifier::external_body]
fn text_set_insert(s: &mut TextSet, text: Vec<char>) -> (r: bool)
    ensures
        text_seq(*old(s)).contains(text@) ==> !r && text_seq(*final(s)) == text_seq(*old(s)),
        !text_seq(*old(s)).contains(text@) ==> r && text_seq(*final(s)) == text_seq(
            *old(s),
        ).push(text@),
{
    s.insert(text)
}

/// The texts of a list of items.
pub open spec fn texts_of(s: Seq<Analysis>) -> Seq<Seq<char>> {
    Seq::new(s.len(), |i: int| s[i].0)
}

/// An item of a list has a text exactly where the text is among the texts
/// of the list.
pub proof fn lemma_has_text(s: Seq<Analysis>, t: Seq<char>)
    ensures
        has_text(s, t) <==> texts_of(s).contains(t),
{
    if has_text(s, t) {
        let i = choose|i: int| 0 <= i < s.len() && (#[trigger] s[i]).0 == t;
        assert(texts_of(s)[i] == t);
    }
    if texts_of(s).contains(t) {
        let i = choose|i: int| 0 <= i < texts_of(s).len() && texts_of(s)[i] == t;
        assert(s[i].0 == t);
    }
}

/// Drops every item whose text an earlier item has.
pub fn drop_repeated(items: &Vec<(Vec<char>, Weight)>) -> (r: Vec<(Vec<char>, Weight)>)
    ensures
        item_views(r@) == unique(item_views(items@)),
{
    let ghost all = item_views(items@);
    let mut seen = text_set_new();
    let mut r: Vec<(Vec<char>, Weight)> = Vec::new();
    let mut i: usize = 0;
    assert(all.subrange(0, 0) =~= Seq::empty());
    assert(item_views(r@) =~= unique(all.subrange(0, 0)));
    assert(text_seq(seen) =~= texts_of(item_views(r@)));
    while i < items.len()
        invariant
            i <= items.len(),
            all == item_views(items@),
            item_views(r@) == unique(all.subrange(0, i as int)),
            text_seq(seen) == texts_of(item_views(r@)),
        decreases items.len() - i,
    {
        let ghost next = all.subrange(0, i + 1);
        let ghost before = item_views(r@);
        assert(next.drop_last() == all.subrange(0, i as int));
        assert(next.last() == all[i as int]);
        proof {
            lemma_has_text(before, items@[i as int].0@);
        }
        if !text_set_contains(&seen, &items[i].0) {
            text_set_insert(&mut seen, copy_text(&items[i].0));
            let item = (copy_text(&items[i].0), items[i].1);
            let ghost iv = (item.0@, item.1);
            r.push(item);
            assert(item_views(r@) =~= before.push(iv));
            assert(text_seq(seen) =~= texts_of(item_views(r@)));
        }
        i += 1;
    }
    assert(all.subrange(0, items.len() as int) == all);
    r
}

impl FST {
    /// Looks a text up: splits it into symbols, runs the transducer over
    /// them from `state`, and returns the output texts of the complete paths
    /// with their weights, lightest first, each text once with its lowest
    /// weight. Fails where the text cannot be split into symbols.
    pub fn lookup(&self, input: &str, state: FSTState, allow_unknown: bool) -> (r: Result<
        Vec<(String, Weight)>,
        KfstError,
    >)
        requires
            self.wf(),
        ensures
            match r {
                Ok(v) => lookup_of(self@, input@, state@, allow_unknown) == Some(
                    analysis_views(v@),
                ) && by_weight(analysis_views(v@)) && texts_differ(analysis_views(v@)),
                Err(e) => lookup_of(self@, input@, state@, allow_unknown) is None && e
                    == KfstError::Tokenization,
            },
    {
        let symbols = match self.split_to_symbols(input, allow_unknown) {
            Some(s) => s,
            None => {
                return Err(KfstError::Tokenization);
            },
        };
        let outs = self.run_fst(symbols, state, false);
        let found = collect_analyses(&outs);
        let ordered = rank_items(&found);
        let kept = drop_repeated(&ordered);
        let mut result: Vec<(String, Weight)> = Vec::new();
        let mut i: usize = 0;
        while i < kept.len()
            invariant
                i <= kept.len(),
                result.len() == i,
                forall|j: int|
                    0 <= j < i ==> (#[trigger] result@[j]).0@ == kept@[j].0@ && result@[j].1
                        == kept@[j].1,
            decreases kept.len() - i,
        {
            result.push((string_of(&kept[i].0), kept[i].1));
            i += 1;
        }
        assert(analysis_views(result@) =~= item_views(kept@));
        proof {
            lemma_lookup_ordered(self@, input@, state@, allow_unknown);
        }
        Ok(result)
    }
}

} // verus!
