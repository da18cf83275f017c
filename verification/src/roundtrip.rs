//! Binary data that was written reads back as the transducer it was written
//! from.

use crate::alphabet::{lemma_place_from, place_from};
use crate::bytes::{
    bytes16, bytes32, lemma_read16, lemma_read32, lemma_read64, lemma_zero_after,
};
use crate::error::KfstError;
use crate::kfst::{
    any_weight, body_of, body_rule, body_rule_known, entry_symbol, final_size, finals_bytes,
    first_fault, head_bytes, head_of, kfst_body, kfst_fault, kfst_front, kfst_fst, packed_of,
    magic, rule_bytes, rule_fault, rule_size, rules_bytes, stored_final, stored_rule,
    stored_weight, table_bytes, table_entries, table_symbols, weight_bytes, KfstHead,
};
use crate::rebuild::lemma_rebuild;
use crate::symbol::{symbol_of_text, SymbolView};
use crate::transducer::{flat_rules, FstView, RuleView};
use crate::weight::Weight;
use vstd::prelude::*;
use vstd::utf8::{
    char_is_scalar, encode_scalar, encode_utf8, encode_utf8_decode_utf8,
    encode_utf8_valid_utf8, is_scalar, valid_utf8,
};

verus! {

/// Whether a text holds no character with the code zero.
pub open spec fn zero_free(text: Seq<char>) -> bool {
    forall|k: int| 0 <= k < text.len() ==> text[k] as u32 != 0
}

proof fn lemma_low_byte(c: u32)
    by (bit_vector)
    requires
        1 <= c <= 0x7f,
    ensures
        (c & 0x7f) as u8 != 0,
{
}

proof fn lemma_marked_byte(y: u8)
    by (bit_vector)
    ensures
        0xC0u8 | y != 0,
        0xE0u8 | y != 0,
        0xF0u8 | y != 0,
        0x80u8 | y != 0,
{
}

/// The UTF-8 bytes of a character other than the one with the code zero
/// hold no zero.
pub proof fn lemma_scalar_bytes(c: u32)
    requires
        is_scalar(c),
        c != 0,
    ensures
        encode_scalar(c).len() >= 1,
        forall|k: int| 0 <= k < encode_scalar(c).len() ==> encode_scalar(c)[k] != 0,
{
    if c <= 0x7f {
        lemma_low_byte(c);
    }
    lemma_marked_byte(((c >> 6) & 0x1F) as u8);
    lemma_marked_byte(((c >> 12) & 0x0F) as u8);
    lemma_marked_byte(((c >> 18) & 0x7) as u8);
    lemma_marked_byte((c & 0x3F) as u8);
    lemma_marked_byte(((c >> 6) & 0x3F) as u8);
    lemma_marked_byte(((c >> 12) & 0x3F) as u8);
}

/// The UTF-8 bytes of a text without a character of code zero hold no zero,
/// and are no fewer than its characters.
pub proof fn lemma_text_bytes(text: Seq<char>)
    requires
        zero_free(text),
    ensures
        encode_utf8(text).len() >= text.len(),
        forall|k: int| 0 <= k < encode_utf8(text).len() ==> encode_utf8(text)[k] != 0,
    decreases text.len(),
{
    if text.len() > 0 {
        let rest = text.drop_first();
        assert(zero_free(rest)) by {
            assert forall|k: int| 0 <= k < rest.len() implies rest[k] as u32 != 0 by {
                assert(rest[k] == text[k + 1]);
            }
        }
        lemma_text_bytes(rest);
        char_is_scalar(text[0]);
        lemma_scalar_bytes(text[0] as u32);
        let first = encode_scalar(text[0] as u32);
        let all = encode_utf8(text);
        assert(all == first + encode_utf8(rest));
        assert forall|k: int| 0 <= k < all.len() implies all[k] != 0 by {
            if k < first.len() {
                assert(all[k] == first[k]);
            } else {
                assert(all[k] == encode_utf8(rest)[k - first.len()]);
            }
        }
    }
}

/// The table of the first `i` symbols is the beginning of the table of all.
pub proof fn lemma_table_prefix(alphabet: Seq<SymbolView>, i: int)
    requires
        0 <= i <= alphabet.len(),
    ensures
        table_bytes(alphabet.subrange(0, i)).len() <= table_bytes(alphabet).len(),
        table_bytes(alphabet).subrange(0, table_bytes(alphabet.subrange(0, i)).len() as int)
            == table_bytes(alphabet.subrange(0, i)),
    decreases alphabet.len() - i,
{
    if i < alphabet.len() {
        lemma_table_prefix(alphabet, i + 1);
        let next = alphabet.subrange(0, i + 1);
        assert(next.drop_last() =~= alphabet.subrange(0, i));
        let short = table_bytes(alphabet.subrange(0, i));
        let long = table_bytes(next);
        assert(long == short + encode_utf8(next.last().text()) + seq![0u8]);
        assert(table_bytes(alphabet).subrange(0, short.len() as int) =~= long.subrange(
            0,
            short.len() as int,
        ));
        assert(long.subrange(0, short.len() as int) =~= short);
    } else {
        assert(alphabet.subrange(0, i) =~= alphabet);
        assert(table_bytes(alphabet).subrange(0, table_bytes(alphabet).len() as int)
            =~= table_bytes(alphabet));
    }
}

/// Where the table of an alphabet stands in `bytes` at `start`, the entries
/// read from the place of the `i`-th symbol on are the UTF-8 texts of the
/// symbols from the `i`-th on, and the reading ends where the table ends.
pub proof fn lemma_table_read(bytes: Seq<u8>, start: int, alphabet: Seq<SymbolView>, i: int)
    requires
        0 <= start,
        start + table_bytes(alphabet).len() <= bytes.len(),
        bytes.subrange(start, start + table_bytes(alphabet).len()) == table_bytes(alphabet),
        0 <= i <= alphabet.len(),
        forall|k: int|
            0 <= k < alphabet.len() ==> zero_free((#[trigger] alphabet[k]).text()) && alphabet[k].text().len()
                > 0,
    ensures
        table_entries(
            bytes,
            start + table_bytes(alphabet.subrange(0, i)).len(),
            (alphabet.len() - i) as nat,
        ) == Some(
            (
                Seq::new(
                    (alphabet.len() - i) as nat,
                    |k: int| encode_utf8(alphabet[i + k].text()),
                ),
                start + table_bytes(alphabet).len(),
            ),
        ),
    decreases alphabet.len() - i,
{
    let n = alphabet.len() as int;
    let whole = table_bytes(alphabet);
    let here = start + table_bytes(alphabet.subrange(0, i)).len();
    let goal = Seq::new((n - i) as nat, |k: int| encode_utf8(alphabet[i + k].text()));
    if i < n {
        lemma_table_read(bytes, start, alphabet, i + 1);
        lemma_table_prefix(alphabet, i);
        lemma_table_prefix(alphabet, i + 1);
        let next = alphabet.subrange(0, i + 1);
        assert(next.drop_last() =~= alphabet.subrange(0, i));
        assert(next.last() == alphabet[i]);
        let short = table_bytes(alphabet.subrange(0, i));
        let long = table_bytes(next);
        let entry = encode_utf8(alphabet[i].text());
        assert(long == short + entry + seq![0u8]);
        assert(zero_free(alphabet[i].text()));
        lemma_text_bytes(alphabet[i].text());
        let z = here + entry.len();
        assert forall|k: int| 0 <= k < long.len() implies bytes[start + k] == long[k] by {
            assert(whole.subrange(0, long.len() as int)[k] == whole[k]);
            assert(bytes.subrange(start, start + whole.len())[k] == bytes[start + k]);
        }
        assert forall|k: int| here <= k < z implies bytes[k] != 0 by {
            assert(bytes[k] == long[k - start]);
            assert(long[k - start] == entry[k - here]);
        }
        assert(bytes[z] == 0) by {
            assert(bytes[z] == long[z - start]);
        }
        lemma_zero_after(bytes, here, z);
        assert(bytes.subrange(here, z) =~= entry) by {
            assert forall|k: int| 0 <= k < entry.len() implies bytes.subrange(here, z)[k]
                == entry[k] by {
                assert(bytes[here + k] == long[here + k - start]);
            }
        }
        let rest = Seq::new((n - i - 1) as nat, |k: int| encode_utf8(alphabet[i + 1 + k].text()));
        assert(z + 1 == start + long.len());
        assert(seq![entry] + rest =~= goal);
    } else {
        assert(alphabet.subrange(0, i) =~= alphabet);
        assert(goal =~= Seq::empty());
    }
}

/// A rule takes as many bytes as the format gives it.
pub proof fn lemma_rule_len(rule: RuleView, alphabet: Seq<SymbolView>, weighted: bool)
    ensures
        rule_bytes(rule, alphabet, weighted).len() == rule_size(weighted),
{
}

/// The first `i` rules take `i` times the bytes of one, and their bytes are
/// the beginning of the bytes of all the rules.
pub proof fn lemma_rules_prefix(
    rules: Seq<RuleView>,
    alphabet: Seq<SymbolView>,
    weighted: bool,
    i: int,
)
    requires
        0 <= i <= rules.len(),
    ensures
        rules_bytes(rules.subrange(0, i), alphabet, weighted).len() == i * rule_size(weighted),
        i * rule_size(weighted) <= rules_bytes(rules, alphabet, weighted).len(),
        rules_bytes(rules, alphabet, weighted).subrange(0, i * rule_size(weighted))
            == rules_bytes(rules.subrange(0, i), alphabet, weighted),
    decreases rules.len() - i,
{
    let size = rule_size(weighted);
    let whole = rules_bytes(rules, alphabet, weighted);
    lemma_rules_len(rules.subrange(0, i), alphabet, weighted);
    if i < rules.len() {
        lemma_rules_prefix(rules, alphabet, weighted, i + 1);
        let next = rules.subrange(0, i + 1);
        assert(next.drop_last() =~= rules.subrange(0, i));
        let short = rules_bytes(rules.subrange(0, i), alphabet, weighted);
        let long = rules_bytes(next, alphabet, weighted);
        assert(long == short + rule_bytes(next.last(), alphabet, weighted));
        assert((i + 1) * size == i * size + size) by (nonlinear_arith);
        assert(whole.subrange(0, i * size) =~= long.subrange(0, i * size));
        assert(long.subrange(0, i * size) =~= short);
    } else {
        assert(rules.subrange(0, i) =~= rules);
        assert(whole.subrange(0, whole.len() as int) =~= whole);
    }
}

/// The rules take as many bytes as there are rules times the bytes of one.
pub proof fn lemma_rules_len(rules: Seq<RuleView>, alphabet: Seq<SymbolView>, weighted: bool)
    ensures
        rules_bytes(rules, alphabet, weighted).len() == rules.len() * rule_size(weighted),
    decreases rules.len(),
{
    let size = rule_size(weighted);
    if rules.len() > 0 {
        lemma_rules_len(rules.drop_last(), alphabet, weighted);
        lemma_rule_len(rules.last(), alphabet, weighted);
        assert(rules.len() * size == (rules.len() - 1) * size + size) by (nonlinear_arith);
    } else {
        assert(0 * size == 0) by (nonlinear_arith);
    }
}

/// The bytes of the `i`-th rule stand at `i` times the bytes of one rule.
pub proof fn lemma_rule_at(rules: Seq<RuleView>, alphabet: Seq<SymbolView>, weighted: bool, i: int)
    requires
        0 <= i < rules.len(),
    ensures
        0 <= i * rule_size(weighted),
        (i + 1) * rule_size(weighted) == i * rule_size(weighted) + rule_size(weighted),
        (i + 1) * rule_size(weighted) <= rules_bytes(rules, alphabet, weighted).len(),
        rules_bytes(rules, alphabet, weighted).subrange(
            i * rule_size(weighted),
            (i + 1) * rule_size(weighted),
        ) == rule_bytes(rules[i], alphabet, weighted),
{
    let size = rule_size(weighted);
    let whole = rules_bytes(rules, alphabet, weighted);
    lemma_rules_prefix(rules, alphabet, weighted, i);
    lemma_rules_prefix(rules, alphabet, weighted, i + 1);
    let next = rules.subrange(0, i + 1);
    assert(next.drop_last() =~= rules.subrange(0, i));
    assert(next.last() == rules[i]);
    let short = rules_bytes(rules.subrange(0, i), alphabet, weighted);
    let long = rules_bytes(next, alphabet, weighted);
    assert(long == short + rule_bytes(rules[i], alphabet, weighted));
    assert((i + 1) * size == i * size + size) by (nonlinear_arith);
    assert(0 <= i * size) by (nonlinear_arith)
        requires
            0 <= i,
            size > 0,
    ;
    assert(whole.subrange(i * size, (i + 1) * size) =~= long.subrange(i * size, (i + 1) * size));
    assert(long.subrange(i * size, (i + 1) * size) =~= rule_bytes(rules[i], alphabet, weighted));
}

/// The weight read from the bytes written for a weight is that weight; in a
/// transducer without weights, it is zero.
pub proof fn lemma_stored_weight(b: Seq<u8>, at: int, w: Weight, weighted: bool)
    requires
        0 <= at,
        at + weight_bytes(w, weighted).len() <= b.len(),
        b.subrange(at, at + weight_bytes(w, weighted).len()) == weight_bytes(w, weighted),
    ensures
        stored_weight(b, at, weighted) == if weighted {
            w
        } else {
            Weight { bits: 0 }
        },
{
    if weighted {
        lemma_read64(b, at, w.bits as int);
    }
}

/// The rule read from the bytes written for a rule has its states and its
/// weight, and the places of its symbols in the alphabet.
pub proof fn lemma_stored_rule(
    b: Seq<u8>,
    at: int,
    rule: RuleView,
    alphabet: Seq<SymbolView>,
    weighted: bool,
)
    requires
        0 <= at,
        at + rule_size(weighted) <= b.len(),
        b.subrange(at, at + rule_size(weighted)) == rule_bytes(rule, alphabet, weighted),
        rule.0 <= u32::MAX,
        rule.1 <= u32::MAX,
        0 <= place_from(alphabet, rule.2, 0) < 65536,
        0 <= place_from(alphabet, rule.3, 0) < 65536,
    ensures
        stored_rule(b, at, weighted) == (
            rule.0,
            rule.1,
            place_from(alphabet, rule.2, 0),
            place_from(alphabet, rule.3, 0),
            if weighted {
                rule.4
            } else {
                Weight { bits: 0 }
            },
        ),
{
    let whole = rule_bytes(rule, alphabet, weighted);
    let part = b.subrange(at, at + rule_size(weighted));
    assert(b.subrange(at, at + 4) =~= part.subrange(0, 4));
    assert(whole.subrange(0, 4) =~= bytes32(rule.0 as int));
    assert(b.subrange(at + 4, at + 8) =~= part.subrange(4, 8));
    assert(whole.subrange(4, 8) =~= bytes32(rule.1 as int));
    assert(b.subrange(at + 8, at + 10) =~= part.subrange(8, 10));
    assert(whole.subrange(8, 10) =~= bytes16(place_from(alphabet, rule.2, 0)));
    assert(b.subrange(at + 10, at + 12) =~= part.subrange(10, 12));
    assert(whole.subrange(10, 12) =~= bytes16(place_from(alphabet, rule.3, 0)));
    let tail = weight_bytes(rule.4, weighted);
    assert(b.subrange(at + 12, at + 12 + tail.len()) =~= part.subrange(12, 12 + tail.len() as int));
    assert(whole.subrange(12, 12 + tail.len() as int) =~= tail);
    lemma_read32(b, at, rule.0 as int);
    lemma_read32(b, at + 4, rule.1 as int);
    lemma_read16(b, at + 8, place_from(alphabet, rule.2, 0));
    lemma_read16(b, at + 10, place_from(alphabet, rule.3, 0));
    lemma_stored_weight(b, at + 12, rule.4, weighted);
}

/// The first `i` final states take `i` times the bytes of one, and their
/// bytes are the beginning of the bytes of all the final states.
pub proof fn lemma_finals_prefix(finals: Seq<(u64, Weight)>, weighted: bool, i: int)
    requires
        0 <= i <= finals.len(),
    ensures
        finals_bytes(finals.subrange(0, i), weighted).len() == i * final_size(weighted),
        i * final_size(weighted) <= finals_bytes(finals, weighted).len(),
        finals_bytes(finals, weighted).subrange(0, i * final_size(weighted)) == finals_bytes(
            finals.subrange(0, i),
            weighted,
        ),
    decreases finals.len() - i,
{
    let size = final_size(weighted);
    let whole = finals_bytes(finals, weighted);
    lemma_finals_len(finals.subrange(0, i), weighted);
    if i < finals.len() {
        lemma_finals_prefix(finals, weighted, i + 1);
        let next = finals.subrange(0, i + 1);
        assert(next.drop_last() =~= finals.subrange(0, i));
        let short = finals_bytes(finals.subrange(0, i), weighted);
        let long = finals_bytes(next, weighted);
        assert(long == short + bytes32(next.last().0 as int) + weight_bytes(
            next.last().1,
            weighted,
        ));
        assert((i + 1) * size == i * size + size) by (nonlinear_arith);
        assert(whole.subrange(0, i * size) =~= long.subrange(0, i * size));
        assert(long.subrange(0, i * size) =~= short);
    } else {
        assert(finals.subrange(0, i) =~= finals);
        assert(whole.subrange(0, whole.len() as int) =~= whole);
    }
}

/// The final states take as many bytes as there are final states times the
/// bytes of one.
pub proof fn lemma_finals_len(finals: Seq<(u64, Weight)>, weighted: bool)
    ensures
        finals_bytes(finals, weighted).len() == finals.len() * final_size(weighted),
    decreases finals.len(),
{
    let size = final_size(weighted);
    if finals.len() > 0 {
        lemma_finals_len(finals.drop_last(), weighted);
        assert(finals.len() * size == (finals.len() - 1) * size + size) by (nonlinear_arith);
    } else {
        assert(0 * size == 0) by (nonlinear_arith);
    }
}

/// The final state read from the place of the `i`-th final state is that
/// final state; in a transducer without weights, with the weight zero.
pub proof fn lemma_final_at(b: Seq<u8>, start: int, finals: Seq<(u64, Weight)>, weighted: bool, i: int)
    requires
        0 <= start,
        start + finals_bytes(finals, weighted).len() <= b.len(),
        b.subrange(start, start + finals_bytes(finals, weighted).len()) == finals_bytes(
            finals,
            weighted,
        ),
        0 <= i < finals.len(),
        finals[i].0 <= u32::MAX,
    ensures
        stored_final(b, start + i * final_size(weighted), weighted) == (
            finals[i].0,
            if weighted {
                finals[i].1
            } else {
                Weight { bits: 0 }
            },
        ),
{
    let size = final_size(weighted);
    let whole = finals_bytes(finals, weighted);
    lemma_finals_prefix(finals, weighted, i);
    lemma_finals_prefix(finals, weighted, i + 1);
    let next = finals.subrange(0, i + 1);
    assert(next.drop_last() =~= finals.subrange(0, i));
    assert(next.last() == finals[i]);
    let short = finals_bytes(finals.subrange(0, i), weighted);
    let long = finals_bytes(next, weighted);
    let tail = weight_bytes(finals[i].1, weighted);
    assert(long == short + bytes32(finals[i].0 as int) + tail);
    assert((i + 1) * size == i * size + size) by (nonlinear_arith);
    assert(0 <= i * size) by (nonlinear_arith)
        requires
            0 <= i,
            size > 0,
    ;
    let at = start + i * size;
    assert forall|k: int| 0 <= k < long.len() implies b[start + k] == long[k] by {
        assert(whole.subrange(0, long.len() as int)[k] == whole[k]);
        assert(b.subrange(start, start + whole.len())[k] == b[start + k]);
    }
    assert(b.subrange(at, at + 4) =~= bytes32(finals[i].0 as int)) by {
        assert forall|k: int| 0 <= k < 4 implies b.subrange(at, at + 4)[k] == bytes32(
            finals[i].0 as int,
        )[k] by {
            assert(b[at + k] == long[i * size + k]);
        }
    }
    assert(b.subrange(at + 4, at + 4 + tail.len()) =~= tail) by {
        assert forall|k: int| 0 <= k < tail.len() implies b.subrange(at + 4, at + 4 + tail.len())[k]
            == tail[k] by {
            assert(b[at + 4 + k] == long[i * size + 4 + k]);
        }
    }
    lemma_read32(b, at, finals[i].0 as int);
    lemma_stored_weight(b, at + 4, finals[i].1, weighted);
}

/// Where no rule has a fault, no one of them has.
pub proof fn lemma_no_fault(rules: Seq<RuleView>, alphabet: Seq<SymbolView>, i: int)
    requires
        first_fault(rules, alphabet) is None,
        0 <= i < rules.len(),
    ensures
        rule_fault(rules[i], alphabet) is None,
    decreases rules.len(),
{
    if i < rules.len() - 1 {
        lemma_no_fault(rules.drop_last(), alphabet, i);
    }
}

/// The head that is written for a transducer.
pub open spec fn head_for(fst: FstView) -> KfstHead {
    KfstHead {
        symbols: fst.alphabet.len() as u16,
        transitions: flat_rules(fst.rules).len() as u32,
        finals: fst.finals.len() as u32,
        weighted: any_weight(fst),
    }
}

/// Whether the binary format holds the transducer without loss: its parts
/// are valid and can be written; the text of each symbol of the alphabet
/// holds no character of code zero and denotes that symbol; and where no
/// weight is other than zero, every weight is the positive zero.
pub open spec fn storable(fst: FstView) -> bool {
    &&& fst.valid()
    &&& kfst_fault(fst) is None
    &&& forall|i: int|
        0 <= i < fst.alphabet.len() ==> zero_free((#[trigger] fst.alphabet[i]).text())
            && symbol_of_text(fst.alphabet[i].text()) == Some(fst.alphabet[i])
    &&& !any_weight(fst) ==> {
        &&& forall|i: int| 0 <= i < fst.finals.len() ==> (#[trigger] fst.finals[i]).1.bits == 0
        &&& forall|i: int|
            0 <= i < flat_rules(fst.rules).len() ==> (#[trigger] flat_rules(fst.rules)[i]).4.bits
                == 0
    }
}

/// A text that denotes a symbol is not empty.
pub proof fn lemma_symbol_text(text: Seq<char>)
    requires
        symbol_of_text(text) is Some,
    ensures
        text.len() > 0,
{
    reveal_strlit("@_EPSILON_SYMBOL_@");
    reveal_strlit("@0@");
    reveal_strlit("@_IDENTITY_SYMBOL_@");
    reveal_strlit("@_UNKNOWN_SYMBOL_@");
}

/// The head of written data reads back as the counts and the flag of the
/// transducer.
pub proof fn lemma_head_read(fst: FstView, tail: Seq<u8>)
    requires
        kfst_fault(fst) is None,
    ensures
        head_bytes(fst).len() == 17,
        head_of(head_bytes(fst) + tail) == Ok::<KfstHead, KfstError>(head_for(fst)),
{
    let head = head_bytes(fst);
    let bytes = head + tail;
    let ns = fst.alphabet.len() as int;
    let nr = flat_rules(fst.rules).len() as int;
    let nf = fst.finals.len() as int;
    assert(head.len() == 17);
    assert(bytes.subrange(0, 4) =~= magic());
    assert(bytes.subrange(4, 6) =~= bytes16(0));
    assert(bytes.subrange(6, 8) =~= bytes16(ns));
    assert(bytes.subrange(8, 12) =~= bytes32(nr));
    assert(bytes.subrange(12, 16) =~= bytes32(nf));
    lemma_read16(bytes, 4, 0);
    lemma_read16(bytes, 6, ns);
    lemma_read32(bytes, 8, nr);
    lemma_read32(bytes, 12, nf);
    assert(bytes[16] == head[16]);
}

/// The table of written data reads back as the alphabet.
pub proof fn lemma_symbols_read(bytes: Seq<u8>, alphabet: Seq<SymbolView>)
    requires
        17 + table_bytes(alphabet).len() <= bytes.len(),
        bytes.subrange(17, 17 + table_bytes(alphabet).len() as int) == table_bytes(alphabet),
        forall|i: int|
            0 <= i < alphabet.len() ==> zero_free((#[trigger] alphabet[i]).text())
                && symbol_of_text(alphabet[i].text()) == Some(alphabet[i]),
    ensures
        table_entries(bytes, 17, alphabet.len()) matches Some((entries, end)) && end == 17
            + table_bytes(alphabet).len() && table_symbols(entries) == Ok::<
            Seq<SymbolView>,
            KfstError,
        >(alphabet),
{
    assert forall|k: int| 0 <= k < alphabet.len() implies zero_free(
        (#[trigger] alphabet[k]).text(),
    ) && alphabet[k].text().len() > 0 by {
        lemma_symbol_text(alphabet[k].text());
    }
    lemma_table_read(bytes, 17, alphabet, 0);
    assert(alphabet.subrange(0, 0) =~= Seq::empty());
    assert(table_bytes(alphabet.subrange(0, 0)).len() == 0);
    let entries = Seq::new(alphabet.len(), |k: int| encode_utf8(alphabet[0 + k].text()));
    assert forall|i: int| 0 <= i < entries.len() implies valid_utf8(#[trigger] entries[i])
        && entry_symbol(entries[i]) == Some(alphabet[i]) by {
        encode_utf8_valid_utf8(alphabet[i].text());
        encode_utf8_decode_utf8(alphabet[i].text());
    }
    assert(Seq::new(entries.len(), |i: int| entry_symbol(entries[i])->0) =~= alphabet);
}

/// The body of written data reads back as the rules and the final states.
pub proof fn lemma_body_read(fst: FstView)
    requires
        storable(fst),
    ensures
        body_of(kfst_body(fst), head_for(fst), fst.alphabet) == Ok::<
            (Seq<RuleView>, Seq<(u64, Weight)>),
            KfstError,
        >((flat_rules(fst.rules), fst.finals)),
{
    let flat = flat_rules(fst.rules);
    let al = fst.alphabet;
    let finals = fst.finals;
    let w = any_weight(fst);
    let head = head_for(fst);
    let r = rules_bytes(flat, al, w);
    let f = finals_bytes(finals, w);
    let body = kfst_body(fst);
    let size = rule_size(w);
    let fsize = final_size(w);
    assert(body == r + f);
    lemma_rules_len(flat, al, w);
    lemma_finals_len(finals, w);
    let rules_end = head.transitions * rule_size(head.weighted);
    assert(rules_end == r.len());
    assert(body.subrange(r.len() as int, r.len() as int + f.len() as int) =~= f);
    assert forall|i: int| 0 <= i < flat.len() implies #[trigger] body_rule_known(
        body,
        i,
        w,
        al.len() as int,
    ) && body_rule(body, i, w, al) == flat[i] by {
        lemma_rule_at(flat, al, w, i);
        lemma_no_fault(flat, al, i);
        assert(body.subrange(i * size, (i + 1) * size) =~= r.subrange(i * size, (i + 1) * size));
        lemma_place_from(al, flat[i].2, 0);
        lemma_place_from(al, flat[i].3, 0);
        lemma_stored_rule(body, i * size, flat[i], al, w);
    }
    assert forall|i: int| 0 <= i < finals.len() implies stored_final(
        body,
        rules_end + i * final_size(w),
        w,
    ) == #[trigger] finals[i] by {
        lemma_final_at(body, r.len() as int, finals, w, i);
    }
    assert(head.transitions == flat.len());
    assert forall|i: int| 0 <= i < flat.len() implies body_rule(body, i, w, al)
        == #[trigger] flat[i] by {
        assert(body_rule_known(body, i, w, al.len() as int));
    }
    assert(Seq::new(head.transitions as nat, |i: int| body_rule(body, i, head.weighted, al))
        =~= flat);
    assert(Seq::new(
        head.finals as nat,
        |i: int| stored_final(body, rules_end + i * final_size(head.weighted), head.weighted),
    ) =~= finals);
}

/// KFST round trip: binary data that was written for a transducer which
/// the format holds without loss reads back as that transducer, with the
/// same final states, the same rules and the same alphabet. Whatever stream
/// stands behind the front is found again as the compressed part, and from
/// the body that was compressed the transducer is read.
pub proof fn lemma_kfst_round_trip(fst: FstView, packed: Seq<u8>)
    requires
        storable(fst),
    ensures
        packed_of(kfst_front(fst) + packed) == Some(packed),
        kfst_fst(kfst_front(fst) + packed, Some(kfst_body(fst))) == Ok::<FstView, KfstError>(fst),
{
    let table = table_bytes(fst.alphabet);
    let bytes = kfst_front(fst) + packed;
    lemma_head_read(fst, table + packed);
    assert(bytes =~= head_bytes(fst) + (table + packed));
    assert(bytes.subrange(17, 17 + table.len() as int) =~= table);
    lemma_symbols_read(bytes, fst.alphabet);
    assert(bytes.subrange(17 + table.len() as int, bytes.len() as int) =~= packed);
    lemma_body_read(fst);
    lemma_rebuild(fst);
}

} // verus!
