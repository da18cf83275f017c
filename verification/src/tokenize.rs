//! Splitting a text into symbols of the alphabet: at each position the
//! first symbol of the alphabet whose text stands there is taken. As the
//! alphabet lists a symbol before every symbol whose text is a prefix of its
//! own, that is the symbol with the longest text.

use crate::alphabet::{in_order, lemma_order_text, may_precede, views};
use crate::symbol::{StringSymbol, Symbol, SymbolView};
use crate::text::{chars_of, has_at, lex_lt, lex_lt_from, occurs_at};
use crate::transducer::FST;
use vstd::prelude::*;

verus! {

/// Whether the symbol can be taken at position `pos` of `text`: its text is
/// not empty and stands there.
pub open spec fn fits(symbol: SymbolView, text: Seq<char>, pos: int) -> bool {
    symbol.text().len() > 0 && occurs_at(text, pos, symbol.text())
}

/// The place of the first symbol from the `i`-th on that fits at `pos`, or
/// the length of the alphabet where none does.
pub open spec fn match_from(alphabet: Seq<SymbolView>, text: Seq<char>, pos: int, i: int) -> int
    decreases alphabet.len() - i,
{
    if i >= alphabet.len() {
        alphabet.len() as int
    } else if fits(alphabet[i], text, pos) {
        i
    } else {
        match_from(alphabet, text, pos, i + 1)
    }
}

/// The symbols that `text` splits into from position `pos` on. Where a
/// symbol of the alphabet fits, the first such is taken. Where none fits,
/// one character becomes an unknown plain symbol if `allow_unknown` is set,
/// and otherwise the text cannot be split.
pub open spec fn tokens(alphabet: Seq<SymbolView>, text: Seq<char>, pos: int, allow_unknown: bool)
    -> Option<Seq<SymbolView>>
    decreases text.len() - pos,
{
    if pos >= text.len() || pos < 0 {
        Some(Seq::empty())
    } else {
        let m = match_from(alphabet, text, pos, 0);
        let n = if 0 <= m < alphabet.len() {
            alphabet[m].text().len() as int
        } else {
            0
        };
        if 0 < n <= text.len() - pos {
            match tokens(alphabet, text, pos + n, allow_unknown) {
                Some(rest) => Some(seq![alphabet[m]] + rest),
                None => None,
            }
        } else if allow_unknown {
            match tokens(alphabet, text, pos + 1, allow_unknown) {
                Some(rest) => Some(seq![SymbolView::Text(seq![text[pos]], true)] + rest),
                None => None,
            }
        } else {
            None
        }
    }
}

/// The texts of a sequence of symbols, one after the other.
pub open spec fn spelled(symbols: Seq<SymbolView>) -> Seq<char>
    decreases symbols.len(),
{
    if symbols.len() == 0 {
        Seq::empty()
    } else {
        spelled(symbols.drop_last()) + symbols.last().text()
    }
}

/// The place that `match_from` returns lies between `i` and the length of
/// the alphabet; the symbol there fits unless the place is the length, and no
/// symbol between `i` and the place fits.
pub proof fn lemma_match_from(alphabet: Seq<SymbolView>, text: Seq<char>, pos: int, i: int)
    requires
        0 <= i <= alphabet.len(),
    ensures
        i <= match_from(alphabet, text, pos, i) <= alphabet.len(),
        match_from(alphabet, text, pos, i) < alphabet.len() ==> fits(
            alphabet[match_from(alphabet, text, pos, i)],
            text,
            pos,
        ),
        forall|k: int|
            i <= k < match_from(alphabet, text, pos, i) ==> !fits(#[trigger] alphabet[k], text, pos),
    decreases alphabet.len() - i,
{
    if i < alphabet.len() && !fits(alphabet[i], text, pos) {
        lemma_match_from(alphabet, text, pos, i + 1);
    }
}

/// The texts of two sequences of symbols, one after the other, are the text
/// of the first followed by the text of the second.
pub proof fn lemma_spelled_concat(a: Seq<SymbolView>, b: Seq<SymbolView>)
    ensures
        spelled(a + b) == spelled(a) + spelled(b),
    decreases b.len(),
{
    if b.len() == 0 {
        assert(a + b == a);
        assert(spelled(a) + spelled(b) == spelled(a));
    } else {
        lemma_spelled_concat(a, b.drop_last());
        assert((a + b).drop_last() == a + b.drop_last());
        assert((a + b).last() == b.last());
        assert(spelled(a) + spelled(b.drop_last()) + b.last().text() == spelled(a) + (spelled(
            b.drop_last(),
        ) + b.last().text()));
    }
}

/// The text of a single symbol.
pub proof fn lemma_spelled_one(x: SymbolView)
    ensures
        spelled(seq![x]) == x.text(),
{
    let s = seq![x];
    assert(s.drop_last() == Seq::<SymbolView>::empty());
    assert(spelled(s.drop_last()) + s.last().text() == x.text());
}

/// The symbols that a text splits into spell the text: their texts, one
/// after the other, are the text from `pos` on.
pub proof fn lemma_tokens_spell(
    alphabet: Seq<SymbolView>,
    text: Seq<char>,
    pos: int,
    allow_unknown: bool,
)
    requires
        0 <= pos <= text.len(),
    ensures
        tokens(alphabet, text, pos, allow_unknown) matches Some(t) ==> spelled(t) == text.subrange(
            pos,
            text.len() as int,
        ),
    decreases text.len() - pos,
{
    if pos < text.len() {
        let m = match_from(alphabet, text, pos, 0);
        lemma_match_from(alphabet, text, pos, 0);
        if 0 <= m < alphabet.len() && alphabet[m].text().len() > 0 {
            let n = alphabet[m].text().len() as int;
            lemma_tokens_spell(alphabet, text, pos + n, allow_unknown);
            if let Some(rest) = tokens(alphabet, text, pos + n, allow_unknown) {
                lemma_spelled_concat(seq![alphabet[m]], rest);
                lemma_spelled_one(alphabet[m]);
                assert(text.subrange(pos, pos + n) + text.subrange(pos + n, text.len() as int)
                    == text.subrange(pos, text.len() as int));
            }
        } else if allow_unknown {
            lemma_tokens_spell(alphabet, text, pos + 1, allow_unknown);
            if let Some(rest) = tokens(alphabet, text, pos + 1, allow_unknown) {
                let x = SymbolView::Text(seq![text[pos]], true);
                lemma_spelled_concat(seq![x], rest);
                lemma_spelled_one(x);
                assert(seq![text[pos]] + text.subrange(pos + 1, text.len() as int)
                    == text.subrange(pos, text.len() as int));
            }
        }
    } else {
        assert(text.subrange(pos, text.len() as int) == Seq::<char>::empty());
    }
}

/// Where unknown symbols are allowed, every text can be split.
pub proof fn lemma_tokens_found(alphabet: Seq<SymbolView>, text: Seq<char>, pos: int)
    ensures
        tokens(alphabet, text, pos, true) is Some,
    decreases text.len() - pos,
{
    if 0 <= pos < text.len() {
        let m = match_from(alphabet, text, pos, 0);
        let n = if 0 <= m < alphabet.len() {
            alphabet[m].text().len() as int
        } else {
            0
        };
        if 0 < n <= text.len() - pos {
            lemma_tokens_found(alphabet, text, pos + n);
        } else {
            lemma_tokens_found(alphabet, text, pos + 1);
        }
    }
}

/// A text comes before every text that it is a proper prefix of.
pub proof fn lemma_prefix_lex(a: Seq<char>, b: Seq<char>, i: int)
    requires
        0 <= i <= a.len(),
        a.len() < b.len(),
        forall|j: int| 0 <= j < a.len() ==> a[j] == b[j],
    ensures
        lex_lt_from(a, b, i),
    decreases a.len() - i,
{
    if i < a.len() {
        lemma_prefix_lex(a, b, i + 1);
    }
}

/// In an alphabet that is in order, the symbol taken at a position has the
/// longest text of all the symbols that fit there.
pub proof fn lemma_longest_match(alphabet: Seq<SymbolView>, text: Seq<char>, pos: int, k: int)
    requires
        in_order(alphabet),
        0 <= k < alphabet.len(),
        fits(alphabet[k], text, pos),
    ensures
        0 <= match_from(alphabet, text, pos, 0) <= k,
        alphabet[k].text().len() <= alphabet[match_from(alphabet, text, pos, 0)].text().len(),
{
    lemma_match_from(alphabet, text, pos, 0);
    let m = match_from(alphabet, text, pos, 0);
    if m < k {
        let a = alphabet[m].text();
        let b = alphabet[k].text();
        assert(may_precede(alphabet[m], alphabet[k]));
        lemma_order_text(alphabet[m], alphabet[k]);
        if a.len() < b.len() {
            assert forall|j: int| 0 <= j < a.len() implies a[j] == b[j] by {
                assert(text.subrange(pos, pos + a.len())[j] == a[j]);
                assert(text.subrange(pos, pos + b.len())[j] == b[j]);
            }
            lemma_prefix_lex(a, b, 0);
            assert(lex_lt(a, b));
        }
    }
}

fn symbol_texts(alphabet: &Vec<Symbol>) -> (r: Vec<Vec<char>>)
    ensures
        r.len() == alphabet.len(),
        forall|i: int| 0 <= i < r.len() ==> (#[trigger] r@[i])@ == alphabet@[i]@.text(),
{
    let mut r: Vec<Vec<char>> = Vec::new();
    let mut i: usize = 0;
    while i < alphabet.len()
        invariant
            i <= alphabet.len(),
            r.len() == i,
            forall|j: int| 0 <= j < i ==> (#[trigger] r@[j])@ == alphabet@[j]@.text(),
        decreases alphabet.len() - i,
    {
        r.push(alphabet[i].text());
        i += 1;
    }
    r
}

fn find_match(alphabet: &Vec<Symbol>, texts: &Vec<Vec<char>>, text: &Vec<char>, pos: usize) -> (r:
    usize)
    requires
        pos <= text.len(),
        texts.len() == alphabet.len(),
        forall|i: int| 0 <= i < texts.len() ==> (#[trigger] texts@[i])@ == alphabet@[i]@.text(),
    ensures
        r as int == match_from(views(alphabet@), text@, pos as int, 0),
        r <= alphabet.len(),
{
    let ghost al = views(alphabet@);
    let mut i: usize = 0;
    while i < texts.len()
        invariant
            i <= texts.len(),
            pos <= text.len(),
            texts.len() == alphabet.len(),
            al == views(alphabet@),
            forall|k: int| 0 <= k < texts.len() ==> (#[trigger] texts@[k])@ == alphabet@[k]@.text(),
            match_from(al, text@, pos as int, 0) == match_from(al, text@, pos as int, i as int),
        decreases texts.len() - i,
    {
        assert(al[i as int] == alphabet@[i as int]@);
        assert(texts@[i as int]@ == alphabet@[i as int]@.text());
        if texts[i].len() > 0 && has_at(text, pos, &texts[i]) {
            return i;
        }
        i += 1;
    }
    i
}

impl FST {
    /// Splits a text into symbols of the alphabet; where `allow_unknown` is
    /// set, a character that begins no symbol of the alphabet becomes an
    /// unknown plain symbol, and otherwise such a character makes the call
    /// return `None`.
    pub fn split_to_symbols(&self, text: &str, allow_unknown: bool) -> (r: Option<Vec<Symbol>>)
        ensures
            match r {
                Some(v) => tokens(self@.alphabet, text@, 0, allow_unknown) == Some(views(v@))
                    && spelled(views(v@)) == text@,
                None => tokens(self@.alphabet, text@, 0, allow_unknown) is None && !allow_unknown,
            },
    {
        let chars = chars_of(text);
        proof {
            lemma_tokens_spell(self@.alphabet, text@, 0, allow_unknown);
            lemma_tokens_found(self@.alphabet, text@, 0);
            assert(text@.subrange(0, text@.len() as int) == text@);
        }
        let alphabet = self.symbols();
        let texts = symbol_texts(alphabet);
        let ghost al = views(alphabet@);
        let ghost whole = tokens(al, chars@, 0, allow_unknown);
        let mut result: Vec<Symbol> = Vec::new();
        let mut pos: usize = 0;
        assert(views(result@) =~= Seq::empty());
        assert(whole == match whole {
            Some(rest) => Some(views(result@) + rest),
            None => None,
        }) by {
            if let Some(rest) = whole {
                assert(views(result@) + rest =~= rest);
            }
        }
        while pos < chars.len()
            invariant
                pos <= chars.len(),
                al == views(alphabet@),
                al == self@.alphabet,
                chars@ == text@,
                whole == tokens(al, chars@, 0, allow_unknown),
                texts.len() == alphabet.len(),
                forall|k: int|
                    0 <= k < texts.len() ==> (#[trigger] texts@[k])@ == alphabet@[k]@.text(),
                whole == match tokens(al, chars@, pos as int, allow_unknown) {
                    Some(rest) => Some(views(result@) + rest),
                    None => None,
                },
            decreases chars.len() - pos,
        {
            let ghost before = views(result@);
            let m = find_match(alphabet, &texts, &chars, pos);
            proof {
                lemma_match_from(al, chars@, pos as int, 0);
            }
            if m < alphabet.len() {
                assert(al[m as int] == alphabet@[m as int]@);
                assert(texts@[m as int]@ == alphabet@[m as int]@.text());
                let ghost next = pos + texts@[m as int]@.len();
                result.push(alphabet[m].clone());
                assert(views(result@) =~= before.push(al[m as int]));
                assert(whole == match tokens(al, chars@, next as int, allow_unknown) {
                    Some(rest) => Some(views(result@) + rest),
                    None => None,
                }) by {
                    if let Some(rest) = tokens(al, chars@, next as int, allow_unknown) {
                        assert(before + (seq![al[m as int]] + rest) =~= views(result@) + rest);
                    }
                }
                pos = pos + texts[m].len();
            } else if allow_unknown {
                let mut one: Vec<char> = Vec::new();
                one.push(chars[pos]);
                assert(one@ =~= seq![chars@[pos as int]]);
                let unknown = Symbol::String(StringSymbol::from_chars(one, true));
                let ghost x = unknown@;
                result.push(unknown);
                assert(views(result@) =~= before.push(x));
                assert(whole == match tokens(al, chars@, pos + 1, allow_unknown) {
                    Some(rest) => Some(views(result@) + rest),
                    None => None,
                }) by {
                    if let Some(rest) = tokens(al, chars@, pos + 1, allow_unknown) {
                        assert(before + (seq![x] + rest) =~= views(result@) + rest);
                    }
                }
                pos = pos + 1;
            } else {
                return None;
            }
        }
        assert(views(result@) + Seq::<SymbolView>::empty() =~= views(result@));
        Some(result)
    }
}

} // verus!
