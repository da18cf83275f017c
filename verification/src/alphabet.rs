//! The order of symbols and the alphabet of a transducer: the symbols of
//! its rules, each once, sorted so that of two symbols the one with the
//! later text in the lexicographic order comes first. A symbol therefore
//! comes before every symbol whose text is a proper prefix of its own.

use crate::symbol::{Symbol, SymbolView};
use crate::text::{
    chars_eq, lemma_lex_asymmetric, lemma_lex_irreflexive, lemma_lex_total, lemma_lex_transitive,
    lex_lt, text_lt,
};
use vstd::prelude::*;

verus! {

/// What a list of symbols is.
pub open spec fn views(s: Seq<Symbol>) -> Seq<SymbolView> {
    Seq::new(s.len(), |i: int| s[i]@)
}

/// Among symbols of one text a known plain symbol comes first, then an
/// unknown plain symbol, then any other.
pub open spec fn tie_rank(a: SymbolView) -> int {
    match a {
        SymbolView::Text(_, unknown) => if unknown {
            1
        } else {
            0
        },
        _ => 2,
    }
}

/// Whether `a` may stand before `b` in an alphabet: its text comes later in
/// the lexicographic order, or the texts are the same and its rank is no
/// higher.
pub open spec fn may_precede(a: SymbolView, b: SymbolView) -> bool {
    lex_lt(b.text(), a.text()) || (a.text() == b.text() && tie_rank(a) <= tie_rank(b))
}

/// Of two symbols one may stand before the other.
pub proof fn lemma_order_connex(a: SymbolView, b: SymbolView)
    ensures
        may_precede(a, b) || may_precede(b, a),
{
    lemma_lex_total(a.text(), b.text(), 0);
}

/// Where `a` may stand before `b` and `b` before `c`, `a` may stand before
/// `c`.
pub proof fn lemma_order_transitive(a: SymbolView, b: SymbolView, c: SymbolView)
    requires
        may_precede(a, b),
        may_precede(b, c),
    ensures
        may_precede(a, c),
{
    if lex_lt(b.text(), a.text()) && lex_lt(c.text(), b.text()) {
        lemma_lex_transitive(c.text(), b.text(), a.text(), 0);
    }
}

/// Where `a` may stand before `b`, the text of `a` does not come before the
/// text of `b`.
pub proof fn lemma_order_text(a: SymbolView, b: SymbolView)
    requires
        may_precede(a, b),
    ensures
        !lex_lt(a.text(), b.text()),
{
    if lex_lt(b.text(), a.text()) {
        lemma_lex_asymmetric(b.text(), a.text(), 0);
    } else {
        lemma_lex_irreflexive(a.text(), 0);
    }
}

/// Where `x` goes in a sorted list: after the last symbol that may stand
/// before it.
pub open spec fn slot(s: Seq<SymbolView>, x: SymbolView) -> int
    decreases s.len(),
{
    if s.len() == 0 {
        0
    } else if may_precede(s.last(), x) {
        s.len() as int
    } else {
        slot(s.drop_last(), x)
    }
}

/// A sorted list with `x` put in.
pub open spec fn inserted(s: Seq<SymbolView>, x: SymbolView) -> Seq<SymbolView> {
    s.insert(slot(s, x), x)
}

/// The symbols of `s` in the order of an alphabet; symbols that the order
/// does not tell apart keep the order they had.
pub open spec fn sorted(s: Seq<SymbolView>) -> Seq<SymbolView>
    decreases s.len(),
{
    if s.len() == 0 {
        s
    } else {
        inserted(sorted(s.drop_last()), s.last())
    }
}

/// The symbols of `s`, each at its first occurrence only.
pub open spec fn distinct(s: Seq<SymbolView>) -> Seq<SymbolView>
    decreases s.len(),
{
    if s.len() == 0 {
        s
    } else if distinct(s.drop_last()).contains(s.last()) {
        distinct(s.drop_last())
    } else {
        distinct(s.drop_last()).push(s.last())
    }
}

/// Whether each symbol of `s` may stand before all that follow it.
pub open spec fn in_order(s: Seq<SymbolView>) -> bool {
    forall|i: int, j: int| 0 <= i < j < s.len() ==> may_precede(#[trigger] s[i], #[trigger] s[j])
}

/// The alphabet made of the symbols `s`.
pub open spec fn alphabet_of(s: Seq<SymbolView>) -> Seq<SymbolView> {
    sorted(distinct(s))
}

/// The slot of `x` lies in the list or at its end; the symbol before it, if
/// there is one, may stand before `x`, and no symbol from it on may.
pub proof fn lemma_slot(s: Seq<SymbolView>, x: SymbolView)
    ensures
        0 <= slot(s, x) <= s.len(),
        slot(s, x) > 0 ==> may_precede(s[slot(s, x) - 1], x),
        forall|j: int| slot(s, x) <= j < s.len() ==> !may_precede(#[trigger] s[j], x),
    decreases s.len(),
{
    if s.len() > 0 && !may_precede(s.last(), x) {
        lemma_slot(s.drop_last(), x);
        assert forall|j: int| slot(s, x) <= j < s.len() implies !may_precede(
            #[trigger] s[j],
            x,
        ) by {
            if j < s.len() - 1 {
                assert(s.drop_last()[j] == s[j]);
            }
        }
    }
}

/// Putting a symbol into a list adds that symbol and nothing else.
pub proof fn lemma_inserted_holds(s: Seq<SymbolView>, x: SymbolView)
    ensures
        inserted(s, x).len() == s.len() + 1,
        inserted(s, x).contains(x),
        forall|y: SymbolView| #[trigger] s.contains(y) ==> inserted(s, x).contains(y),
        forall|y: SymbolView| #[trigger] inserted(s, x).contains(y) ==> y == x || s.contains(y),
{
    lemma_slot(s, x);
    let p = slot(s, x);
    let r = inserted(s, x);
    assert(r[p] == x);
    assert forall|y: SymbolView| #[trigger] s.contains(y) implies r.contains(y) by {
        let i = choose|i: int| 0 <= i < s.len() && s[i] == y;
        if i < p {
            assert(r[i] == y);
        } else {
            assert(r[i + 1] == y);
        }
    }
    assert forall|y: SymbolView| #[trigger] r.contains(y) implies y == x || s.contains(y) by {
        let i = choose|i: int| 0 <= i < r.len() && r[i] == y;
        if i < p {
            assert(s[i] == y);
        } else if i > p {
            assert(s[i - 1] == y);
        }
    }
}

/// Putting a symbol into a list that is in order leaves it in order.
pub proof fn lemma_inserted_in_order(s: Seq<SymbolView>, x: SymbolView)
    requires
        in_order(s),
    ensures
        in_order(inserted(s, x)),
{
    lemma_slot(s, x);
    let p = slot(s, x);
    let r = inserted(s, x);
    assert forall|i: int, j: int| 0 <= i < j < r.len() implies may_precede(
        #[trigger] r[i],
        #[trigger] r[j],
    ) by {
        if j < p {
            assert(may_precede(s[i], s[j]));
        } else if j == p {
            if i < p - 1 {
                assert(may_precede(s[i], s[p - 1]));
                lemma_order_transitive(s[i], s[p - 1], x);
            }
        } else if i < p {
            assert(may_precede(s[i], s[j - 1]));
        } else if i == p {
            assert(!may_precede(s[j - 1], x));
            lemma_order_connex(s[j - 1], x);
        } else {
            assert(may_precede(s[i - 1], s[j - 1]));
        }
    }
}

/// Putting a new symbol into a list without repetitions leaves it without
/// repetitions.
pub proof fn lemma_inserted_no_duplicates(s: Seq<SymbolView>, x: SymbolView)
    requires
        s.no_duplicates(),
        !s.contains(x),
    ensures
        inserted(s, x).no_duplicates(),
{
    lemma_slot(s, x);
    let p = slot(s, x);
    let r = inserted(s, x);
    assert forall|i: int, j: int| 0 <= i < r.len() && 0 <= j < r.len() && i != j implies r[i]
        != r[j] by {
        let a = if i < p {
            i
        } else {
            i - 1
        };
        let b = if j < p {
            j
        } else {
            j - 1
        };
        if i == p {
            assert(s.contains(s[b]));
        } else if j == p {
            assert(s.contains(s[a]));
        } else {
            assert(s[a] != s[b]);
        }
    }
}

/// Sorting keeps the length and the symbols, puts them in order, and keeps
/// a list without repetitions so.
pub proof fn lemma_sorted(s: Seq<SymbolView>)
    ensures
        sorted(s).len() == s.len(),
        forall|y: SymbolView| sorted(s).contains(y) <==> s.contains(y),
        in_order(sorted(s)),
        s.no_duplicates() ==> sorted(s).no_duplicates(),
    decreases s.len(),
{
    if s.len() > 0 {
        let t = s.drop_last();
        lemma_sorted(t);
        lemma_inserted_holds(sorted(t), s.last());
        lemma_inserted_in_order(sorted(t), s.last());
        assert forall|y: SymbolView| sorted(s).contains(y) <==> s.contains(y) by {
            assert(s[s.len() - 1] == s.last());
            if s.contains(y) {
                let i = choose|i: int| 0 <= i < s.len() && s[i] == y;
                if i < t.len() {
                    assert(t[i] == y);
                    assert(t.contains(y));
                    assert(sorted(t).contains(y));
                }
            }
            if sorted(s).contains(y) && y != s.last() {
                assert(sorted(t).contains(y));
                assert(t.contains(y));
                let i = choose|i: int| 0 <= i < t.len() && t[i] == y;
                assert(s[i] == y);
            }
        }
        if s.no_duplicates() {
            assert(t.no_duplicates()) by {
                assert forall|i: int, j: int|
                    0 <= i < t.len() && 0 <= j < t.len() && i != j implies t[i] != t[j] by {
                    assert(s[i] != s[j]);
                }
            }
            assert(!t.contains(s.last())) by {
                if t.contains(s.last()) {
                    let k = choose|k: int| 0 <= k < t.len() && t[k] == s.last();
                    assert(s[k] == s[s.len() - 1]);
                }
            }
            lemma_inserted_no_duplicates(sorted(t), s.last());
        }
    }
}

/// `distinct` keeps the symbols and repeats none.
pub proof fn lemma_distinct(s: Seq<SymbolView>)
    ensures
        distinct(s).no_duplicates(),
        distinct(s).len() <= s.len(),
        forall|y: SymbolView| distinct(s).contains(y) <==> s.contains(y),
    decreases s.len(),
{
    if s.len() > 0 {
        let t = s.drop_last();
        let d = distinct(t);
        lemma_distinct(t);
        let r = distinct(s);
        assert(s[s.len() - 1] == s.last());
        if !d.contains(s.last()) {
            assert(r[d.len() as int] == s.last());
            assert forall|i: int, j: int| 0 <= i < r.len() && 0 <= j < r.len() && i != j implies r[i]
                != r[j] by {
                if i < d.len() && j < d.len() {
                    assert(d[i] != d[j]);
                } else if i < d.len() {
                    assert(d.contains(d[i]));
                } else {
                    assert(d.contains(d[j]));
                }
            }
        }
        assert forall|y: SymbolView| r.contains(y) <==> s.contains(y) by {
            if r.contains(y) {
                let i = choose|i: int| 0 <= i < r.len() && r[i] == y;
                if i < d.len() {
                    assert(d[i] == y);
                    assert(d.contains(y));
                    assert(t.contains(y));
                    let k = choose|k: int| 0 <= k < t.len() && t[k] == y;
                    assert(s[k] == y);
                }
            }
            if s.contains(y) {
                let i = choose|i: int| 0 <= i < s.len() && s[i] == y;
                if i < t.len() {
                    assert(t[i] == y);
                    assert(t.contains(y));
                    assert(d.contains(y));
                    let k = choose|k: int| 0 <= k < d.len() && d[k] == y;
                    assert(r[k] == y);
                }
            }
        }
    }
}

/// An alphabet is in order and repeats no symbol, and holds the symbols it
/// was made of.
pub proof fn lemma_alphabet(s: Seq<SymbolView>)
    ensures
        in_order(alphabet_of(s)),
        alphabet_of(s).no_duplicates(),
        alphabet_of(s).len() <= s.len(),
        forall|y: SymbolView| alphabet_of(s).contains(y) <==> s.contains(y),
{
    lemma_distinct(s);
    lemma_sorted(distinct(s));
}

/// Whether of two different symbols of `s` only one may stand before the
/// other.
pub open spec fn strict(s: Seq<SymbolView>) -> bool {
    forall|i: int, j: int|
        0 <= i < s.len() && 0 <= j < s.len() && may_precede(#[trigger] s[i], #[trigger] s[j])
            && may_precede(s[j], s[i]) ==> s[i] == s[j]
}

/// Whether two lists hold the same symbols.
pub open spec fn same_symbols(a: Seq<SymbolView>, b: Seq<SymbolView>) -> bool {
    forall|y: SymbolView| a.contains(y) <==> b.contains(y)
}

/// Two lists that are in order, repeat nothing and hold the same symbols
/// are the same list, where the order tells all their symbols apart.
pub proof fn lemma_sorted_unique(a: Seq<SymbolView>, b: Seq<SymbolView>)
    requires
        in_order(a),
        in_order(b),
        a.no_duplicates(),
        b.no_duplicates(),
        same_symbols(a, b),
        strict(a),
    ensures
        a == b,
    decreases a.len(),
{
    a.unique_seq_to_set();
    b.unique_seq_to_set();
    assert(a.to_set() =~= b.to_set());
    if a.len() == 0 {
        assert(a =~= b);
    } else {
        let a0 = a[0];
        let b0 = b[0];
        assert(a.contains(a0));
        assert(b.contains(b0));
        assert(b.contains(a0));
        assert(a.contains(b0));
        let k = choose|k: int| 0 <= k < b.len() && b[k] == a0;
        let m = choose|m: int| 0 <= m < a.len() && a[m] == b0;
        if k > 0 && m > 0 {
            assert(may_precede(b[0], b[k]));
            assert(may_precede(a[0], a[m]));
            assert(a[0] == a[m]);
        }
        assert(a0 == b0);
        let ta = a.drop_first();
        let tb = b.drop_first();
        assert(in_order(ta)) by {
            assert forall|i: int, j: int| 0 <= i < j < ta.len() implies may_precede(
                #[trigger] ta[i],
                #[trigger] ta[j],
            ) by {
                assert(may_precede(a[i + 1], a[j + 1]));
            }
        }
        assert(in_order(tb)) by {
            assert forall|i: int, j: int| 0 <= i < j < tb.len() implies may_precede(
                #[trigger] tb[i],
                #[trigger] tb[j],
            ) by {
                assert(may_precede(b[i + 1], b[j + 1]));
            }
        }
        assert(ta.no_duplicates()) by {
            assert forall|i: int, j: int|
                0 <= i < ta.len() && 0 <= j < ta.len() && i != j implies ta[i] != ta[j] by {
                assert(a[i + 1] != a[j + 1]);
            }
        }
        assert(tb.no_duplicates()) by {
            assert forall|i: int, j: int|
                0 <= i < tb.len() && 0 <= j < tb.len() && i != j implies tb[i] != tb[j] by {
                assert(b[i + 1] != b[j + 1]);
            }
        }
        assert(strict(ta)) by {
            assert forall|i: int, j: int|
                0 <= i < ta.len() && 0 <= j < ta.len() && may_precede(
                    #[trigger] ta[i],
                    #[trigger] ta[j],
                ) && may_precede(ta[j], ta[i]) implies ta[i] == ta[j] by {
                assert(may_precede(a[i + 1], a[j + 1]));
            }
        }
        assert(same_symbols(ta, tb)) by {
            assert forall|y: SymbolView| ta.contains(y) <==> tb.contains(y) by {
                if ta.contains(y) {
                    let i = choose|i: int| 0 <= i < ta.len() && ta[i] == y;
                    assert(a[i + 1] == y);
                    assert(a.contains(y));
                    assert(b.contains(y));
                    let j = choose|j: int| 0 <= j < b.len() && b[j] == y;
                    if j == 0 {
                        assert(a[0] == a[i + 1]);
                    }
                    assert(tb[j - 1] == y);
                }
                if tb.contains(y) {
                    let i = choose|i: int| 0 <= i < tb.len() && tb[i] == y;
                    assert(b[i + 1] == y);
                    assert(b.contains(y));
                    assert(a.contains(y));
                    let j = choose|j: int| 0 <= j < a.len() && a[j] == y;
                    if j == 0 {
                        assert(b[0] == b[i + 1]);
                    }
                    assert(ta[j - 1] == y);
                }
            }
        }
        lemma_sorted_unique(ta, tb);
        assert(a =~= seq![a0] + ta);
        assert(b =~= seq![b0] + tb);
    }
}

/// An alphabet depends only on which symbols it is made of, where the
/// order tells all of them apart.
pub proof fn lemma_alphabet_of_symbols(a: Seq<SymbolView>, b: Seq<SymbolView>)
    requires
        same_symbols(a, b),
        strict(a),
    ensures
        alphabet_of(a) == alphabet_of(b),
{
    lemma_alphabet(a);
    lemma_alphabet(b);
    let x = alphabet_of(a);
    let y = alphabet_of(b);
    assert(strict(x)) by {
        assert forall|i: int, j: int|
            0 <= i < x.len() && 0 <= j < x.len() && may_precede(#[trigger] x[i], #[trigger] x[j])
                && may_precede(x[j], x[i]) implies x[i] == x[j] by {
            assert(x.contains(x[i]));
            assert(x.contains(x[j]));
            assert(a.contains(x[i]));
            assert(a.contains(x[j]));
            let p = choose|p: int| 0 <= p < a.len() && a[p] == x[i];
            let q = choose|q: int| 0 <= q < a.len() && a[q] == x[j];
            assert(may_precede(a[p], a[q]));
        }
    }
    assert(same_symbols(x, y)) by {
        assert forall|s: SymbolView| x.contains(s) <==> y.contains(s) by {
            assert(x.contains(s) <==> a.contains(s));
            assert(y.contains(s) <==> b.contains(s));
        }
    }
    lemma_sorted_unique(x, y);
}

/// Tests whether `a` may stand before `b` in an alphabet.
pub fn stands_before(a: &Symbol, b: &Symbol) -> (r: bool)
    ensures
        r == may_precede(a@, b@),
{
    let ta = a.text();
    let tb = b.text();
    if text_lt(&tb, &ta) {
        true
    } else if chars_eq(&ta, &tb) {
        rank_of(a) <= rank_of(b)
    } else {
        false
    }
}

fn rank_of(a: &Symbol) -> (r: u8)
    ensures
        r as int == tie_rank(a@),
{
    match a {
        Symbol::String(s) => if s.unknown {
            1
        } else {
            0
        },
        _ => 2,
    }
}

/// The first place from the `i`-th on where `x` stands in `list`, or the
/// length of `list` where it stands at none of them.
pub open spec fn place_from(list: Seq<SymbolView>, x: SymbolView, i: int) -> int
    decreases list.len() - i,
{
    if i >= list.len() {
        list.len() as int
    } else if list[i] == x {
        i
    } else {
        place_from(list, x, i + 1)
    }
}

/// The place that `place_from` returns lies between `i` and the length;
/// `x` stands there unless it is the length, and at no place between `i` and
/// it.
pub proof fn lemma_place_from(list: Seq<SymbolView>, x: SymbolView, i: int)
    requires
        0 <= i <= list.len(),
    ensures
        i <= place_from(list, x, i) <= list.len(),
        place_from(list, x, i) < list.len() ==> list[place_from(list, x, i)] == x,
        forall|j: int| i <= j < place_from(list, x, i) ==> list[j] != x,
    decreases list.len() - i,
{
    if i < list.len() && list[i] != x {
        lemma_place_from(list, x, i + 1);
    }
}

/// Searches a list of symbols for a symbol.
pub fn position_of(list: &Vec<Symbol>, x: &Symbol) -> (r: Option<usize>)
    ensures
        match r {
            Some(i) => i < list.len() && i as int == place_from(views(list@), x@, 0),
            None => place_from(views(list@), x@, 0) == list.len(),
        },
{
    let ghost all = views(list@);
    let mut i: usize = 0;
    while i < list.len()
        invariant
            i <= list.len(),
            all == views(list@),
            place_from(all, x@, 0) == place_from(all, x@, i as int),
        decreases list.len() - i,
    {
        assert(all[i as int] == list@[i as int]@);
        if list[i].same(x) {
            return Some(i);
        }
        i += 1;
    }
    None
}

/// Puts `x` into a sorted list, after the last symbol that may stand before
/// it.
pub fn insert_sorted(list: &mut Vec<Symbol>, x: Symbol)
    ensures
        views(final(list)@) == inserted(views(old(list)@), x@),
{
    let ghost before = views(list@);
    let mut p: usize = list.len();
    assert(before.subrange(0, p as int) == before);
    while p > 0 && !stands_before(&list[p - 1], &x)
        invariant
            p <= list.len(),
            list@ == old(list)@,
            before == views(list@),
            slot(before, x@) == slot(before.subrange(0, p as int), x@),
        decreases p,
    {
        let ghost head = before.subrange(0, p as int);
        assert(head.last() == list@[p - 1]@);
        assert(head.drop_last() == before.subrange(0, p - 1));
        p -= 1;
    }
    let ghost head = before.subrange(0, p as int);
    assert(slot(head, x@) == p) by {
        if p > 0 {
            assert(head.last() == list@[p - 1]@);
        }
    }
    list.insert(p, x);
    assert(views(list@) =~= before.insert(p as int, x@));
}

/// The alphabet made of the given symbols.
pub fn make_alphabet(symbols: &Vec<Symbol>) -> (r: Vec<Symbol>)
    ensures
        views(r@) == alphabet_of(views(symbols@)),
{
    let ghost all = views(symbols@);
    let mut unique: Vec<Symbol> = Vec::new();
    let mut i: usize = 0;
    assert(views(unique@) =~= distinct(all.subrange(0, 0)));
    while i < symbols.len()
        invariant
            i <= symbols.len(),
            all == views(symbols@),
            views(unique@) == distinct(all.subrange(0, i as int)),
        decreases symbols.len() - i,
    {
        let ghost next = all.subrange(0, i + 1);
        assert(next.drop_last() == all.subrange(0, i as int));
        assert(next.last() == symbols@[i as int]@);
        proof {
            lemma_place_from(views(unique@), symbols@[i as int]@, 0);
        }
        match position_of(&unique, &symbols[i]) {
            Some(k) => {
                assert(views(unique@)[k as int] == symbols@[i as int]@);
            },
            None => {
                assert(!views(unique@).contains(symbols@[i as int]@));
                unique.push(symbols[i].clone());
                assert(views(unique@) =~= distinct(next.drop_last()).push(next.last()));
            },
        }
        i += 1;
    }
    assert(all.subrange(0, symbols.len() as int) == all);
    let ghost d = views(unique@);
    let mut r: Vec<Symbol> = Vec::new();
    let mut j: usize = 0;
    assert(views(r@) =~= sorted(d.subrange(0, 0)));
    while j < unique.len()
        invariant
            j <= unique.len(),
            d == views(unique@),
            views(r@) == sorted(d.subrange(0, j as int)),
        decreases unique.len() - j,
    {
        let ghost next = d.subrange(0, j + 1);
        assert(next.drop_last() == d.subrange(0, j as int));
        assert(next.last() == unique@[j as int]@);
        insert_sorted(&mut r, unique[j].clone());
        j += 1;
    }
    assert(d.subrange(0, unique.len() as int) == d);
    r
}

} // verus!
