//! The KFST binary format: a header, a table of symbols, and the rules and
//! final states compressed as an XZ stream.
//!
//! All numbers are stored most significant byte first. The header is the
//! four bytes `KFST`, a version of two bytes, the number of symbols in two
//! bytes, the number of rules and the number of final states in four bytes
//! each, and one byte that is zero for a transducer without weights. The
//! table holds the text of each symbol in UTF-8, each ended by a zero byte.
//! A rule is a source state and a target state of four bytes each and the
//! places of its input symbol and of its output symbol in the table, of two
//! bytes each; a final state is a state of four bytes. In a transducer with
//! weights each rule and each final state is followed by the eight bytes of
//! its weight.
//!
//! Writing compresses. Reading leaves the decompression to the caller, who
//! gets the compressed part from `FST::kfst_packed` and hands what it holds
//! to `FST::from_kfst_bytes`.

use crate::alphabet::{alphabet_of, place_from, position_of, views};
use crate::bytes::{
    append_bytes, be16, be32, be64, bytes16, bytes32, bytes64, find_zero, push_u16, push_u32,
    push_u64, read_u16, read_u32, read_u64, slice_bytes, zero_from,
};
use crate::error::KfstError;
use crate::symbol::{read_symbol, symbol_of_text, Symbol, SymbolView};
use crate::text::{chars_of, string_of};
use crate::transducer::{finals_of, flat_rules, rule_views, rules_of, FstView, RuleView, FST};
use crate::weight::Weight;
use vstd::prelude::*;
use vstd::utf8::{decode_utf8, encode_utf8, valid_utf8};

verus! {

/// The XZ stream that the compressor makes of `data`.
pub uninterp spec fn xz_packed(data: Seq<u8>) -> Seq<u8>;

/// `lzma_rs::xz_compress`, from a slice into a vector. The compressor fails
/// only where its reader or its writer fails, which a slice and a vector
/// never do; so the call returns the stream, which is named `xz_packed`.
#[verifier::external_body]
fn xz_pack(data: &Vec<u8>) -> (r: Option<Vec<u8>>)
    ensures
        r is Some,
        r matches Some(packed) ==> packed@ == xz_packed(data@),
{
    let mut out: Vec<u8> = Vec::new();
    match lzma_rs::xz_compress(&mut data.as_slice(), &mut out) {
        Ok(()) => Some(out),
        Err(_) => None,
    }
}

/// `String::from_utf8`: the text that the bytes encode, or `None` where they
/// are not UTF-8.
#[verifier::external_body]
fn text_of_utf8(bytes: Vec<u8>) -> (r: Option<String>)
    ensures
        match r {
            Some(s) => valid_utf8(bytes@) && s@ == decode_utf8(bytes@),
            None => !valid_utf8(bytes@),
        },
{
    match String::from_utf8(bytes) {
        Ok(s) => Some(s),
        Err(_) => None,
    }
}

/// The counts and the flag of a header.
#[derive(Debug, Clone, Copy, PartialEq, Eq, Structural)]
pub struct KfstHead {
    pub symbols: u16,
    pub transitions: u32,
    pub finals: u32,
    pub weighted: bool,
}

/// The number of bytes of a header.
pub const HEAD_LEN: usize = 17;

/// The four bytes that every file begins with.
pub open spec fn magic() -> Seq<u8> {
    seq![75u8, 70u8, 83u8, 84u8]
}

/// What the header says, or why it is refused.
pub open spec fn head_of(b: Seq<u8>) -> Result<KfstHead, KfstError> {
    if b.len() < 6 || b.subrange(0, 4) != magic() {
        Err(KfstError::Header)
    } else if be16(b, 4) != 0 {
        Err(KfstError::Version)
    } else if b.len() < 17 {
        Err(KfstError::Metadata)
    } else {
        Ok(
            KfstHead {
                symbols: be16(b, 6) as u16,
                transitions: be32(b, 8) as u32,
                finals: be32(b, 12) as u32,
                weighted: b[16] != 0,
            },
        )
    }
}

/// The next `count` entries of the table from position `from` on, and the
/// position after them. Each entry runs up to the next zero byte and is not
/// empty.
pub open spec fn table_entries(b: Seq<u8>, from: int, count: nat) -> Option<(Seq<Seq<u8>>, int)>
    decreases count,
{
    if count == 0 {
        Some((Seq::empty(), from))
    } else {
        let z = zero_from(b, from);
        if 0 <= from < z < b.len() {
            match table_entries(b, z + 1, (count - 1) as nat) {
                Some((rest, end)) => Some((seq![b.subrange(from, z)] + rest, end)),
                None => None,
            }
        } else {
            None
        }
    }
}

/// The symbol that an entry of the table denotes.
pub open spec fn entry_symbol(entry: Seq<u8>) -> Option<SymbolView> {
    symbol_of_text(decode_utf8(entry))
}

/// The symbols of the table: refused where an entry is not UTF-8, and else
/// where an entry denotes no symbol.
pub open spec fn table_symbols(entries: Seq<Seq<u8>>) -> Result<Seq<SymbolView>, KfstError> {
    if exists|i: int| 0 <= i < entries.len() && !valid_utf8(#[trigger] entries[i]) {
        Err(KfstError::Encoding)
    } else if exists|i: int| 0 <= i < entries.len() && entry_symbol(#[trigger] entries[i]) is None {
        Err(KfstError::Symbol)
    } else {
        Ok(Seq::new(entries.len(), |i: int| entry_symbol(entries[i])->0))
    }
}

/// The number of bytes of a rule.
pub open spec fn rule_size(weighted: bool) -> int {
    if weighted {
        20
    } else {
        12
    }
}

/// The number of bytes of a final state.
pub open spec fn final_size(weighted: bool) -> int {
    if weighted {
        12
    } else {
        4
    }
}

/// The weight stored at `at`; zero in a transducer without weights.
pub open spec fn stored_weight(b: Seq<u8>, at: int, weighted: bool) -> Weight {
    if weighted {
        Weight { bits: be64(b, at) as u64 }
    } else {
        Weight { bits: 0 }
    }
}

/// The rule stored at `at`, with the places of its symbols in the table.
pub open spec fn stored_rule(b: Seq<u8>, at: int, weighted: bool) -> (u64, u64, int, int, Weight) {
    (
        be32(b, at) as u64,
        be32(b, at + 4) as u64,
        be16(b, at + 8),
        be16(b, at + 10),
        stored_weight(b, at + 12, weighted),
    )
}

/// The final state stored at `at`.
pub open spec fn stored_final(b: Seq<u8>, at: int, weighted: bool) -> (u64, Weight) {
    (be32(b, at) as u64, stored_weight(b, at + 4, weighted))
}

/// The `i`-th rule of the body.
pub open spec fn body_rule(b: Seq<u8>, i: int, weighted: bool, symbols: Seq<SymbolView>)
    -> RuleView {
    let r = stored_rule(b, i * rule_size(weighted), weighted);
    (r.0, r.1, symbols[r.2], symbols[r.3], r.4)
}

/// Whether the `i`-th rule of the body names symbols of the table.
pub open spec fn body_rule_known(b: Seq<u8>, i: int, weighted: bool, symbols: int) -> bool {
    let r = stored_rule(b, i * rule_size(weighted), weighted);
    r.2 < symbols && r.3 < symbols
}

/// The rules and the final states that the body holds, or why it is
/// refused: it ends before the last rule, or before the last final state,
/// or goes on after it, or a rule names a symbol that the table lacks.
pub open spec fn body_of(b: Seq<u8>, head: KfstHead, symbols: Seq<SymbolView>) -> Result<
    (Seq<RuleView>, Seq<(u64, Weight)>),
    KfstError,
> {
    let rules_end = head.transitions * rule_size(head.weighted);
    let finals_end = rules_end + head.finals * final_size(head.weighted);
    if b.len() < rules_end {
        Err(KfstError::Transitions)
    } else if b.len() < finals_end {
        Err(KfstError::FinalStates)
    } else if b.len() > finals_end {
        Err(KfstError::Trailing)
    } else if exists|i: int|
        0 <= i < head.transitions && !#[trigger] body_rule_known(
            b,
            i,
            head.weighted,
            symbols.len() as int,
        ) {
        Err(KfstError::SymbolIndex)
    } else {
        Ok(
            (
                Seq::new(
                    head.transitions as nat,
                    |i: int| body_rule(b, i, head.weighted, symbols),
                ),
                Seq::new(
                    head.finals as nat,
                    |i: int|
                        stored_final(b, rules_end + i * final_size(head.weighted), head.weighted),
                ),
            ),
        )
    }
}

/// Where the first rules can be written, a fault among all the rules is the
/// fault of a later rule; where they cannot, it is theirs.
pub proof fn lemma_fault_prefix(rules: Seq<RuleView>, alphabet: Seq<SymbolView>, n: int)
    requires
        0 <= n <= rules.len(),
    ensures
        first_fault(rules.subrange(0, n), alphabet) matches Some(e) ==> first_fault(rules, alphabet)
            == Some(e),
    decreases rules.len() - n,
{
    if n < rules.len() {
        assert(rules.subrange(0, n + 1).drop_last() == rules.subrange(0, n));
        lemma_fault_prefix(rules, alphabet, n + 1);
    } else {
        assert(rules.subrange(0, n) == rules);
    }
}

/// The transducer that a table of symbols and a body describe.
pub open spec fn fst_of_body(b: Seq<u8>, head: KfstHead, symbols: Seq<SymbolView>) -> Result<
    FstView,
    KfstError,
> {
    match body_of(b, head, symbols) {
        Ok((rules, finals)) => Ok(
            FstView {
                finals: finals_of(finals),
                rules: rules_of(rules),
                alphabet: alphabet_of(symbols),
            },
        ),
        Err(e) => Err(e),
    }
}

/// What stands before the compressed part of binary data: the head, the
/// symbols of the table and the place where the compressed part begins; or
/// why the data is refused.
pub open spec fn front_of(bytes: Seq<u8>) -> Result<(KfstHead, Seq<SymbolView>, int), KfstError> {
    match head_of(bytes) {
        Err(e) => Err(e),
        Ok(head) => match table_entries(bytes, 17, head.symbols as nat) {
            None => Err(KfstError::SymbolTable),
            Some((entries, end)) => match table_symbols(entries) {
                Err(e) => Err(e),
                Ok(symbols) => Ok((head, symbols, end)),
            },
        },
    }
}

/// The compressed part of binary data, where what stands before it is in
/// order.
pub open spec fn packed_of(bytes: Seq<u8>) -> Option<Seq<u8>> {
    match front_of(bytes) {
        Ok((_, _, end)) => Some(bytes.subrange(end, bytes.len() as int)),
        Err(_) => None,
    }
}

/// The transducer that binary data describes, or why the data is refused.
/// `body` is what decompressing the compressed part has given, or `None`
/// where it could not be decompressed.
pub open spec fn kfst_fst(bytes: Seq<u8>, body: Option<Seq<u8>>) -> Result<FstView, KfstError> {
    match front_of(bytes) {
        Err(e) => Err(e),
        Ok((head, symbols, _)) => match body {
            None => Err(KfstError::Compression),
            Some(b) => fst_of_body(b, head, symbols),
        },
    }
}

/// What a list of byte strings is.
pub open spec fn byte_views(s: Seq<Vec<u8>>) -> Seq<Seq<u8>> {
    Seq::new(s.len(), |i: int| s[i]@)
}

/// Reads the header.
pub fn read_head(b: &Vec<u8>) -> (r: Result<KfstHead, KfstError>)
    ensures
        r == head_of(b@),
{
    if b.len() < 6 || b[0] != 75 || b[1] != 70 || b[2] != 83 || b[3] != 84 {
        assert(b@.len() < 6 || b@.subrange(0, 4) != magic()) by {
            if b@.len() >= 6 {
                let m = b@.subrange(0, 4);
                assert(m[0] == b@[0] && m[1] == b@[1] && m[2] == b@[2] && m[3] == b@[3]);
            }
        }
        return Err(KfstError::Header);
    }
    assert(b@.subrange(0, 4) =~= magic());
    if read_u16(b, 4) != 0 {
        return Err(KfstError::Version);
    }
    if b.len() < 17 {
        return Err(KfstError::Metadata);
    }
    Ok(
        KfstHead {
            symbols: read_u16(b, 6),
            transitions: read_u32(b, 8),
            finals: read_u32(b, 12),
            weighted: b[16] != 0,
        },
    )
}

/// Reads `count` entries of the table of symbols, from position `from` on.
pub fn read_entries(b: &Vec<u8>, from: usize, count: u16) -> (r: Option<(Vec<Vec<u8>>, usize)>)
    requires
        from <= b.len(),
    ensures
        match r {
            Some((entries, end)) => table_entries(b@, from as int, count as nat) == Some(
                (byte_views(entries@), end as int),
            ) && end <= b.len(),
            None => table_entries(b@, from as int, count as nat) is None,
        },
{
    let ghost whole = table_entries(b@, from as int, count as nat);
    let mut entries: Vec<Vec<u8>> = Vec::new();
    let mut pos: usize = from;
    let mut i: u16 = 0;
    proof {
        if let Some((rest, end)) = whole {
            assert(byte_views(entries@) + rest =~= rest);
        }
    }
    while i < count
        invariant
            i <= count,
            pos <= b.len(),
            whole == table_entries(b@, from as int, count as nat),
            whole == match table_entries(b@, pos as int, (count - i) as nat) {
                Some((rest, end)) => Some((byte_views(entries@) + rest, end)),
                None => None,
            },
        decreases count - i,
    {
        let ghost before = byte_views(entries@);
        let z = find_zero(b, pos);
        if !(pos < z && z < b.len()) {
            return None;
        }
        entries.push(slice_bytes(b, pos, z));
        assert(byte_views(entries@) =~= before.push(b@.subrange(pos as int, z as int)));
        proof {
            if let Some((rest, end)) = table_entries(b@, z + 1, (count - i - 1) as nat) {
                assert(before + (seq![b@.subrange(pos as int, z as int)] + rest) =~= byte_views(
                    entries@,
                ) + rest);
            }
        }
        pos = z + 1;
        i += 1;
    }
    assert(byte_views(entries@) + Seq::<Seq<u8>>::empty() =~= byte_views(entries@));
    Some((entries, pos))
}

/// Reads the symbols that the entries of the table denote.
pub fn read_table(entries: Vec<Vec<u8>>) -> (r: Result<Vec<Symbol>, KfstError>)
    ensures
        match r {
            Ok(symbols) => table_symbols(byte_views(entries@)) == Ok::<
                Seq<SymbolView>,
                KfstError,
            >(views(symbols@)),
            Err(e) => table_symbols(byte_views(entries@)) == Err::<Seq<SymbolView>, KfstError>(e),
        },
{
    let ghost all = byte_views(entries@);
    let mut texts: Vec<Vec<char>> = Vec::new();
    let mut i: usize = 0;
    while i < entries.len()
        invariant
            i <= entries.len(),
            all == byte_views(entries@),
            texts.len() == i,
            forall|k: int| 0 <= k < i ==> valid_utf8(#[trigger] all[k]),
            forall|k: int| 0 <= k < i ==> (#[trigger] texts@[k])@ == decode_utf8(all[k]),
        decreases entries.len() - i,
    {
        let copy = slice_bytes(&entries[i], 0, entries[i].len());
        assert(copy@ == all[i as int]) by {
            assert(entries@[i as int]@.subrange(0, entries@[i as int]@.len() as int)
                == entries@[i as int]@);
        }
        match text_of_utf8(copy) {
            Some(s) => {
                texts.push(chars_of(s.as_str()));
            },
            None => {
                return Err(KfstError::Encoding);
            },
        }
        i += 1;
    }
    let mut symbols: Vec<Symbol> = Vec::new();
    let mut j: usize = 0;
    while j < texts.len()
        invariant
            j <= texts.len(),
            texts.len() == entries.len(),
            all == byte_views(entries@),
            all.len() == entries.len(),
            symbols.len() == j,
            forall|k: int| 0 <= k < all.len() ==> valid_utf8(#[trigger] all[k]),
            forall|k: int| 0 <= k < texts.len() ==> (#[trigger] texts@[k])@ == decode_utf8(all[k]),
            forall|k: int| 0 <= k < j ==> entry_symbol(#[trigger] all[k]) == Some(symbols@[k]@),
        decreases texts.len() - j,
    {
        match read_symbol(&texts[j]) {
            Some(s) => {
                symbols.push(s);
            },
            None => {
                assert(entry_symbol(all[j as int]) is None);
                return Err(KfstError::Symbol);
            },
        }
        j += 1;
    }
    assert(views(symbols@) =~= Seq::new(all.len(), |i: int| entry_symbol(all[i])->0));
    Ok(symbols)
}

/// Reads what stands before the compressed part: the head and the table
/// of symbols.
pub fn read_front(b: &Vec<u8>) -> (r: Result<(KfstHead, Vec<Symbol>, usize), KfstError>)
    ensures
        match r {
            Ok((head, symbols, end)) => front_of(b@) == Ok::<
                (KfstHead, Seq<SymbolView>, int),
                KfstError,
            >((head, views(symbols@), end as int)) && end <= b.len(),
            Err(e) => front_of(b@) == Err::<(KfstHead, Seq<SymbolView>, int), KfstError>(e),
        },
{
    let head = match read_head(b) {
        Ok(h) => h,
        Err(e) => {
            return Err(e);
        },
    };
    let (entries, end) = match read_entries(b, HEAD_LEN, head.symbols) {
        Some(t) => t,
        None => {
            return Err(KfstError::SymbolTable);
        },
    };
    match read_table(entries) {
        Ok(symbols) => Ok((head, symbols, end)),
        Err(e) => Err(e),
    }
}

fn read_weight(b: &Vec<u8>, at: usize, weighted: bool) -> (r: Weight)
    requires
        weighted ==> at + 8 <= b.len(),
    ensures
        r == stored_weight(b@, at as int, weighted),
{
    if weighted {
        Weight { bits: read_u64(b, at) }
    } else {
        Weight::zero()
    }
}

/// Reads the rules and the final states from the decompressed body and
/// makes the transducer of them and of the symbols of the table.
pub fn read_body(body: &Vec<u8>, head: KfstHead, symbols: Vec<Symbol>) -> (r: Result<
    FST,
    KfstError,
>)
    ensures
        match r {
            Ok(fst) => fst.wf() && !fst.debug_mark() && fst_of_body(body@, head, views(symbols@))
                == Ok::<FstView, KfstError>(fst@),
            Err(e) => fst_of_body(body@, head, views(symbols@)) == Err::<FstView, KfstError>(e),
        },
{
    let weighted = head.weighted;
    let rule_len: u64 = if weighted {
        20
    } else {
        12
    };
    let final_len: u64 = if weighted {
        12
    } else {
        4
    };
    let rules_end: u64 = (head.transitions as u64) * rule_len;
    let finals_end: u64 = rules_end + (head.finals as u64) * final_len;
    let ghost sv = views(symbols@);
    assert(rules_end as int == head.transitions * rule_size(weighted));
    assert(finals_end as int == rules_end + head.finals * final_size(weighted));
    let size: u64 = body.len() as u64;
    if size < rules_end {
        return Err(KfstError::Transitions);
    }
    if size < finals_end {
        return Err(KfstError::FinalStates);
    }
    if size > finals_end {
        return Err(KfstError::Trailing);
    }
    let mut rules: Vec<(u64, u64, Symbol, Symbol, Weight)> = Vec::new();
    let mut i: u32 = 0;
    let mut at: usize = 0;
    while i < head.transitions
        invariant
            i <= head.transitions,
            weighted == head.weighted,
            rule_len as int == rule_size(weighted),
            at as int == i * rule_size(weighted),
            rules_end as int == head.transitions * rule_size(weighted),
            finals_end as int == rules_end + head.finals * final_size(weighted),
            finals_end == body.len(),
            rules_end <= body.len(),
            sv == views(symbols@),
            rules.len() == i,
            forall|k: int| 0 <= k < i ==> #[trigger] body_rule_known(body@, k, weighted, sv.len() as int),
            forall|k: int|
                0 <= k < i ==> (#[trigger] rule_views(rules@)[k]) == body_rule(
                    body@,
                    k,
                    weighted,
                    sv,
                ),
        decreases head.transitions - i,
    {
        assert((i + 1) * rule_size(weighted) <= head.transitions * rule_size(weighted))
            by (nonlinear_arith)
            requires
                i < head.transitions,
                rule_size(weighted) > 0,
        ;
        assert((i + 1) * rule_size(weighted) == i * rule_size(weighted) + rule_size(weighted))
            by (nonlinear_arith);
        let ghost before = rule_views(rules@);
        let source = read_u32(body, at) as u64;
        let target = read_u32(body, at + 4) as u64;
        let top = read_u16(body, at + 8) as usize;
        let bottom = read_u16(body, at + 10) as usize;
        let weight = read_weight(body, at + 12, weighted);
        if top >= symbols.len() || bottom >= symbols.len() {
            assert(!body_rule_known(body@, i as int, weighted, sv.len() as int));
            return Err(KfstError::SymbolIndex);
        }
        rules.push((source, target, symbols[top].clone(), symbols[bottom].clone(), weight));
        assert(rule_views(rules@)[i as int] == body_rule(body@, i as int, weighted, sv));
        assert forall|k: int| 0 <= k < i implies (#[trigger] rule_views(rules@)[k]) == body_rule(
            body@,
            k,
            weighted,
            sv,
        ) by {
            assert(rule_views(rules@)[k] == before[k]);
        }
        at = at + rule_len as usize;
        i += 1;
    }
    let mut finals: Vec<(u64, Weight)> = Vec::new();
    let mut j: u32 = 0;
    while j < head.finals
        invariant
            j <= head.finals,
            weighted == head.weighted,
            final_len as int == final_size(weighted),
            at as int == rules_end + j * final_size(weighted),
            finals_end as int == rules_end + head.finals * final_size(weighted),
            finals_end == body.len(),
            finals.len() == j,
            forall|k: int|
                0 <= k < j ==> (#[trigger] finals@[k]) == stored_final(
                    body@,
                    rules_end + k * final_size(weighted),
                    weighted,
                ),
        decreases head.finals - j,
    {
        assert((j + 1) * final_size(weighted) <= head.finals * final_size(weighted))
            by (nonlinear_arith)
            requires
                j < head.finals,
                final_size(weighted) > 0,
        ;
        assert((j + 1) * final_size(weighted) == j * final_size(weighted) + final_size(weighted))
            by (nonlinear_arith);
        let node = read_u32(body, at) as u64;
        let weight = read_weight(body, at + 4, weighted);
        finals.push((node, weight));
        at = at + final_len as usize;
        j += 1;
    }
    assert(rule_views(rules@) =~= Seq::new(
        head.transitions as nat,
        |i: int| body_rule(body@, i, weighted, sv),
    ));
    assert(finals@ =~= Seq::new(
        head.finals as nat,
        |i: int| stored_final(body@, rules_end + i * final_size(weighted), weighted),
    ));
    let fst = FST::from_rules(finals, rules, symbols, None);
    proof {
        fst.lemma_view_parts(fst_of_body(body@, head, sv)->Ok_0);
    }
    Ok(fst)
}

/// The table of symbols: the text of each symbol in UTF-8 and a zero byte.
pub open spec fn table_bytes(alphabet: Seq<SymbolView>) -> Seq<u8>
    decreases alphabet.len(),
{
    if alphabet.len() == 0 {
        Seq::empty()
    } else {
        table_bytes(alphabet.drop_last()) + encode_utf8(alphabet.last().text()) + seq![0u8]
    }
}

/// The bytes of a weight: eight in a transducer with weights, else none.
pub open spec fn weight_bytes(w: Weight, weighted: bool) -> Seq<u8> {
    if weighted {
        bytes64(w.bits as int)
    } else {
        Seq::empty()
    }
}

/// The bytes of a rule; each symbol is given by its first place in the
/// alphabet.
pub open spec fn rule_bytes(rule: RuleView, alphabet: Seq<SymbolView>, weighted: bool) -> Seq<u8> {
    bytes32(rule.0 as int) + bytes32(rule.1 as int) + bytes16(place_from(alphabet, rule.2, 0))
        + bytes16(place_from(alphabet, rule.3, 0)) + weight_bytes(rule.4, weighted)
}

/// The bytes of the rules, one after the other.
pub open spec fn rules_bytes(rules: Seq<RuleView>, alphabet: Seq<SymbolView>, weighted: bool)
    -> Seq<u8>
    decreases rules.len(),
{
    if rules.len() == 0 {
        Seq::empty()
    } else {
        rules_bytes(rules.drop_last(), alphabet, weighted) + rule_bytes(
            rules.last(),
            alphabet,
            weighted,
        )
    }
}

/// The bytes of the final states, one after the other.
pub open spec fn finals_bytes(finals: Seq<(u64, Weight)>, weighted: bool) -> Seq<u8>
    decreases finals.len(),
{
    if finals.len() == 0 {
        Seq::empty()
    } else {
        finals_bytes(finals.drop_last(), weighted) + bytes32(finals.last().0 as int)
            + weight_bytes(finals.last().1, weighted)
    }
}

/// Whether a final state or a rule has a weight other than zero.
pub open spec fn any_weight(fst: FstView) -> bool {
    ||| exists|i: int| 0 <= i < fst.finals.len() && !(#[trigger] fst.finals[i]).1.is_zero()
    ||| exists|i: int|
        0 <= i < flat_rules(fst.rules).len() && !(#[trigger] flat_rules(fst.rules)[i]).4.is_zero()
}

/// Why a rule cannot be written: a state is too large for four bytes, or a
/// symbol is missing from the alphabet.
pub open spec fn rule_fault(rule: RuleView, alphabet: Seq<SymbolView>) -> Option<KfstError> {
    if rule.0 > u32::MAX || rule.1 > u32::MAX {
        Some(KfstError::Range)
    } else if place_from(alphabet, rule.2, 0) >= alphabet.len() || place_from(alphabet, rule.3, 0)
        >= alphabet.len() {
        Some(KfstError::Alphabet)
    } else {
        None
    }
}

/// The fault of the first rule that cannot be written.
pub open spec fn first_fault(rules: Seq<RuleView>, alphabet: Seq<SymbolView>) -> Option<KfstError>
    decreases rules.len(),
{
    if rules.len() == 0 {
        None
    } else {
        match first_fault(rules.drop_last(), alphabet) {
            Some(e) => Some(e),
            None => rule_fault(rules.last(), alphabet),
        }
    }
}

/// Why a transducer cannot be written, if it cannot: it has more symbols,
/// rules or final states than the header can count; or else a rule cannot be
/// written; or else a final state is too large for four bytes.
pub open spec fn kfst_fault(fst: FstView) -> Option<KfstError> {
    let rules = flat_rules(fst.rules);
    if rules.len() > u32::MAX || fst.alphabet.len() > u16::MAX || fst.finals.len() > u32::MAX {
        Some(KfstError::Range)
    } else {
        match first_fault(rules, fst.alphabet) {
            Some(e) => Some(e),
            None => if exists|i: int|
                0 <= i < fst.finals.len() && (#[trigger] fst.finals[i]).0 > u32::MAX {
                Some(KfstError::Range)
            } else {
                None
            },
        }
    }
}

/// The header of a transducer.
pub open spec fn head_bytes(fst: FstView) -> Seq<u8> {
    magic() + bytes16(0) + bytes16(fst.alphabet.len() as int) + bytes32(
        flat_rules(fst.rules).len() as int,
    ) + bytes32(fst.finals.len() as int) + seq![
        if any_weight(fst) {
            1u8
        } else {
            0u8
        },
    ]
}

/// The part of the binary data that is not compressed: the header and the
/// table of symbols.
pub open spec fn kfst_front(fst: FstView) -> Seq<u8> {
    head_bytes(fst) + table_bytes(fst.alphabet)
}

/// The part of the binary data that is compressed: the rules, then the
/// final states.
pub open spec fn kfst_body(fst: FstView) -> Seq<u8> {
    rules_bytes(flat_rules(fst.rules), fst.alphabet, any_weight(fst)) + finals_bytes(
        fst.finals,
        any_weight(fst),
    )
}

fn append_slice(out: &mut Vec<u8>, src: &[u8])
    ensures
        final(out)@ == old(out)@ + src@,
{
    let mut i: usize = 0;
    while i < src.len()
        invariant
            i <= src.len(),
            out@ == old(out)@ + src@.subrange(0, i as int),
        decreases src.len() - i,
    {
        out.push(src[i]);
        assert(src@.subrange(0, i as int).push(src@[i as int]) == src@.subrange(0, i + 1));
        i += 1;
    }
    assert(src@.subrange(0, src.len() as int) == src@);
}

fn push_weight(out: &mut Vec<u8>, w: Weight, weighted: bool)
    ensures
        final(out)@ == old(out)@ + weight_bytes(w, weighted),
{
    if weighted {
        push_u64(out, w.bits);
    } else {
        assert(out@ + Seq::<u8>::empty() =~= out@);
    }
}

impl FST {
    fn has_weights(&self, rules: &Vec<(u64, u64, Symbol, Symbol, Weight)>) -> (r: bool)
        requires
            rule_views(rules@) == flat_rules(self@.rules),
        ensures
            r == any_weight(self@),
    {
        let finals = self.final_states();
        let ghost flat = flat_rules(self@.rules);
        let mut i: usize = 0;
        while i < finals.len()
            invariant
                i <= finals.len(),
                finals@ == self@.finals,
                forall|k: int| 0 <= k < i ==> (#[trigger] finals@[k]).1.is_zero(),
            decreases finals.len() - i,
        {
            if !finals[i].1.zero_valued() {
                return true;
            }
            i += 1;
        }
        let mut j: usize = 0;
        while j < rules.len()
            invariant
                j <= rules.len(),
                finals@ == self@.finals,
                flat == flat_rules(self@.rules),
                rule_views(rules@) == flat,
                forall|k: int| 0 <= k < finals.len() ==> (#[trigger] finals@[k]).1.is_zero(),
                forall|k: int| 0 <= k < j ==> (#[trigger] flat[k]).4.is_zero(),
            decreases rules.len() - j,
        {
            assert(flat[j as int].4 == rules@[j as int].4);
            if !rules[j].4.zero_valued() {
                return true;
            }
            j += 1;
        }
        false
    }

    /// The two parts of the binary data before compression: the header with
    /// the table of symbols, and the rules with the final states.
    pub fn kfst_parts(&self) -> (r: Result<(Vec<u8>, Vec<u8>), KfstError>)
        ensures
            match r {
                Ok((front, body)) => kfst_fault(self@) is None && front@ == kfst_front(self@)
                    && body@ == kfst_body(self@),
                Err(e) => kfst_fault(self@) == Some(e),
            },
    {
        let rules = self.transitions();
        let finals = self.final_states();
        let alphabet = self.symbols();
        let ghost flat = flat_rules(self@.rules);
        let ghost al = self@.alphabet;
        if rules.len() > 0xffff_ffff || alphabet.len() > 0xffff || finals.len() > 0xffff_ffff {
            return Err(KfstError::Range);
        }
        let weighted = self.has_weights(&rules);
        let mut front: Vec<u8> = Vec::new();
        front.push(75);
        front.push(70);
        front.push(83);
        front.push(84);
        assert(front@ =~= magic());
        push_u16(&mut front, 0);
        push_u16(&mut front, alphabet.len() as u16);
        push_u32(&mut front, rules.len() as u32);
        push_u32(&mut front, finals.len() as u32);
        front.push(if weighted {
            1
        } else {
            0
        });
        assert(front@ =~= head_bytes(self@));
        let mut s: usize = 0;
        assert(al.subrange(0, 0) =~= Seq::empty());
        assert(front@ =~= head_bytes(self@) + table_bytes(al.subrange(0, 0)));
        while s < alphabet.len()
            invariant
                s <= alphabet.len(),
                al == views(alphabet@),
                front@ == head_bytes(self@) + table_bytes(al.subrange(0, s as int)),
            decreases alphabet.len() - s,
        {
            let ghost next = al.subrange(0, s + 1);
            assert(next.drop_last() == al.subrange(0, s as int));
            assert(next.last() == alphabet@[s as int]@);
            let text = string_of(&alphabet[s].text());
            append_slice(&mut front, text.as_str().as_bytes());
            front.push(0);
            assert(front@ =~= head_bytes(self@) + table_bytes(next));
            s += 1;
        }
        assert(al.subrange(0, alphabet.len() as int) == al);
        let mut body: Vec<u8> = Vec::new();
        let mut i: usize = 0;
        assert(flat.subrange(0, 0) =~= Seq::empty());
        assert(body@ =~= rules_bytes(flat.subrange(0, 0), al, weighted));
        while i < rules.len()
            invariant
                i <= rules.len(),
                al == views(alphabet@),
                al == self@.alphabet,
                al.len() <= 0xffff,
                flat.len() <= 0xffff_ffff,
                self@.finals.len() <= 0xffff_ffff,
                flat == flat_rules(self@.rules),
                flat == rule_views(rules@),
                first_fault(flat.subrange(0, i as int), al) is None,
                body@ == rules_bytes(flat.subrange(0, i as int), al, weighted),
            decreases rules.len() - i,
        {
            let ghost next = flat.subrange(0, i + 1);
            assert(next.drop_last() == flat.subrange(0, i as int));
            assert(next.last() == flat[i as int]);
            let rule = &rules[i];
            assert(flat[i as int] == (rule.0, rule.1, rule.2@, rule.3@, rule.4));
            proof {
                lemma_fault_prefix(flat, al, i + 1);
            }
            if rule.0 > 0xffff_ffff || rule.1 > 0xffff_ffff {
                return Err(KfstError::Range);
            }
            let top = match position_of(alphabet, &rule.2) {
                Some(p) => p,
                None => {
                    return Err(KfstError::Alphabet);
                },
            };
            let bottom = match position_of(alphabet, &rule.3) {
                Some(p) => p,
                None => {
                    return Err(KfstError::Alphabet);
                },
            };
            push_u32(&mut body, rule.0 as u32);
            push_u32(&mut body, rule.1 as u32);
            push_u16(&mut body, top as u16);
            push_u16(&mut body, bottom as u16);
            push_weight(&mut body, rule.4, weighted);
            assert(body@ =~= rules_bytes(next, al, weighted));
            i += 1;
        }
        assert(flat.subrange(0, rules.len() as int) == flat);
        let ghost done = body@;
        let ghost fv = self@.finals;
        let mut j: usize = 0;
        assert(fv.subrange(0, 0) =~= Seq::empty());
        assert(body@ =~= done + finals_bytes(fv.subrange(0, 0), weighted));
        while j < finals.len()
            invariant
                j <= finals.len(),
                fv == finals@,
                fv == self@.finals,
                first_fault(flat, al) is None,
                flat == flat_rules(self@.rules),
                al == self@.alphabet,
                al.len() <= 0xffff,
                flat.len() <= 0xffff_ffff,
                fv.len() <= 0xffff_ffff,
                forall|k: int| 0 <= k < j ==> (#[trigger] fv[k]).0 <= u32::MAX,
                body@ == done + finals_bytes(fv.subrange(0, j as int), weighted),
            decreases finals.len() - j,
        {
            let ghost next = fv.subrange(0, j + 1);
            assert(next.drop_last() == fv.subrange(0, j as int));
            assert(next.last() == fv[j as int]);
            let entry = finals[j];
            if entry.0 > 0xffff_ffff {
                return Err(KfstError::Range);
            }
            push_u32(&mut body, entry.0 as u32);
            push_weight(&mut body, entry.1, weighted);
            assert(body@ =~= done + finals_bytes(next, weighted));
            j += 1;
        }
        assert(fv.subrange(0, finals.len() as int) == fv);
        Ok((front, body))
    }

    /// Writes the transducer as KFST binary data: the header and the table
    /// of symbols, then the rules and the final states as an XZ stream.
    pub fn to_kfst_bytes(&self) -> (r: Result<Vec<u8>, KfstError>)
        ensures
            match r {
                Ok(bytes) => kfst_fault(self@) is None && bytes@ == kfst_front(self@) + xz_packed(
                    kfst_body(self@),
                ),
                Err(e) => kfst_fault(self@) == Some(e),
            },
    {
        match self.kfst_parts() {
            Ok((front, body)) => {
                match xz_pack(&body) {
                    Some(packed) => {
                        let mut out = front;
                        append_bytes(&mut out, &packed);
                        Ok(out)
                    },
                    None => Err(KfstError::Compression),
                }
            },
            Err(e) => Err(e),
        }
    }

    /// The compressed part of KFST binary data, which is to be decompressed
    /// for `from_kfst_bytes`; `None` where what stands before it is refused.
    pub fn kfst_packed(kfst_bytes: &[u8]) -> (r: Option<Vec<u8>>)
        ensures
            match r {
                Some(packed) => packed_of(kfst_bytes@) == Some(packed@),
                None => packed_of(kfst_bytes@) is None,
            },
    {
        let bytes = vstd::slice::slice_to_vec(kfst_bytes);
        match read_front(&bytes) {
            Ok((_, _, end)) => Some(slice_bytes(&bytes, end, bytes.len())),
            Err(_) => None,
        }
    }

    /// Reads a transducer from KFST binary data. `body` is what
    /// decompressing the compressed part, as `kfst_packed` gives it, has
    /// given, or `None` where it could not be decompressed. A fault of the
    /// header or of the table of symbols is reported before a failure to
    /// decompress, and that before a fault of the body.
    pub fn from_kfst_bytes(kfst_bytes: &[u8], body: Option<Vec<u8>>, debug: bool) -> (r: Result<
        FST,
        KfstError,
    >)
        ensures
            match r {
                Ok(fst) => fst.wf() && !fst.debug_mark() && kfst_fst(
                    kfst_bytes@,
                    match body {
                        Some(b) => Some(b@),
                        None => None,
                    },
                ) == Ok::<FstView, KfstError>(fst@),
                Err(e) => kfst_fst(
                    kfst_bytes@,
                    match body {
                        Some(b) => Some(b@),
                        None => None,
                    },
                ) == Err::<FstView, KfstError>(e),
            },
    {
        let bytes = vstd::slice::slice_to_vec(kfst_bytes);
        let (head, symbols, _) = match read_front(&bytes) {
            Ok(f) => f,
            Err(e) => {
                return Err(e);
            },
        };
        match body {
            Some(b) => read_body(&b, head, symbols),
            None => Err(KfstError::Compression),
        }
    }
}

} // verus!
