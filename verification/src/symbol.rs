//! The symbols of a transducer: special symbols, flag diacritics, plain
//! strings and raw tokens, with their textual forms and their parsers.

use crate::error::KfstError;
use crate::text::{
    append_chars, chars_eq, chars_of, decimal, find_char, has_at, occurs_at, position_from,
    push_decimal, slice_all, slice_chars, string_of,
};
use vstd::prelude::*;

verus! {

/// The kinds of flag diacritic.
#[derive(PartialEq, Eq, Debug, Clone, Copy, Hash, Structural)]
pub enum FlagDiacriticType {
    /// Unification.
    U,
    /// Requirement.
    R,
    /// Denial.
    D,
    /// Clearing.
    C,
    /// Positive setting.
    P,
    /// Negative setting.
    N,
}

/// The three special symbols.
#[derive(PartialEq, Eq, Debug, Clone, Copy, Hash, Structural)]
pub enum SpecialSymbol {
    /// Matches without consuming input and leaves no output.
    EPSILON,
    /// Matches one unknown input symbol and hands it on as output.
    IDENTITY,
    /// Matches one unknown input symbol.
    UNKNOWN,
}

/// An ordinary symbol: a text, and whether it stands for input that the
/// alphabet does not cover.
#[derive(PartialEq, Eq, Debug, Hash)]
pub struct StringSymbol {
    /// The characters of the text.
    pub string: Vec<char>,
    /// Whether the symbol counts as unknown.
    pub unknown: bool,
}

/// A flag diacritic: a kind, the name of a flag and, for most kinds, a value.
#[derive(PartialEq, Eq, Debug, Hash)]
pub struct FlagDiacriticSymbol {
    /// The kind of the diacritic.
    pub flag_type: FlagDiacriticType,
    /// The name of the flag.
    pub key: Vec<char>,
    /// The value, for a diacritic that has one.
    pub value: Option<Vec<char>>,
}

/// A token supplied by the caller. Of the first byte, the lowest bit marks
/// the token as epsilon and the next bit marks it as unknown; the other
/// bytes are the caller's.
#[derive(PartialEq, Eq, Debug, Clone, Copy, Hash)]
pub struct RawSymbol {
    pub value: [u8; 15],
}

/// A symbol of any kind.
#[derive(PartialEq, Eq, Debug, Hash)]
pub enum Symbol {
    Special(SpecialSymbol),
    Flag(FlagDiacriticSymbol),
    String(StringSymbol),
    Raw(RawSymbol),
}

/// What a flag diacritic is: its kind, key and value.
pub struct FlagView {
    pub kind: FlagDiacriticType,
    pub key: Seq<char>,
    pub value: Option<Seq<char>>,
}

/// What a symbol is.
pub enum SymbolView {
    Special(SpecialSymbol),
    Flag(FlagView),
    Text(Seq<char>, bool),
    Raw(Seq<u8>),
}

/// The text of the epsilon symbol.
pub open spec fn epsilon_text() -> Seq<char> {
    "@_EPSILON_SYMBOL_@"@
}

/// The short text that also denotes the epsilon symbol.
pub open spec fn epsilon_short_text() -> Seq<char> {
    "@0@"@
}

/// The text of the identity symbol.
pub open spec fn identity_text() -> Seq<char> {
    "@_IDENTITY_SYMBOL_@"@
}

/// The text of the unknown symbol.
pub open spec fn unknown_text() -> Seq<char> {
    "@_UNKNOWN_SYMBOL_@"@
}

/// The letter of a kind of flag diacritic.
pub open spec fn kind_letter(kind: FlagDiacriticType) -> char {
    match kind {
        FlagDiacriticType::U => 'U',
        FlagDiacriticType::R => 'R',
        FlagDiacriticType::D => 'D',
        FlagDiacriticType::C => 'C',
        FlagDiacriticType::P => 'P',
        FlagDiacriticType::N => 'N',
    }
}

/// The kind of flag diacritic that a letter denotes.
pub open spec fn letter_kind(c: char) -> Option<FlagDiacriticType> {
    if c == 'U' {
        Some(FlagDiacriticType::U)
    } else if c == 'R' {
        Some(FlagDiacriticType::R)
    } else if c == 'D' {
        Some(FlagDiacriticType::D)
    } else if c == 'C' {
        Some(FlagDiacriticType::C)
    } else if c == 'P' {
        Some(FlagDiacriticType::P)
    } else if c == 'N' {
        Some(FlagDiacriticType::N)
    } else {
        None
    }
}

/// The text of a special symbol.
pub open spec fn special_text(s: SpecialSymbol) -> Seq<char> {
    match s {
        SpecialSymbol::EPSILON => epsilon_text(),
        SpecialSymbol::IDENTITY => identity_text(),
        SpecialSymbol::UNKNOWN => unknown_text(),
    }
}

/// The decimal numerals of the first `n` bytes of `v`, separated by a comma
/// and a space.
pub open spec fn raw_items(v: Seq<u8>, n: int) -> Seq<char>
    decreases n,
{
    if n <= 0 {
        Seq::empty()
    } else if n == 1 {
        decimal(v[0] as nat)
    } else {
        raw_items(v, n - 1) + seq![',', ' '] + decimal(v[n - 1] as nat)
    }
}

impl FlagView {
    /// The text of a flag diacritic: `@`, the letter of the kind, a point,
    /// the key, for a diacritic with a value a point and the value, and `@`.
    pub open spec fn text(self) -> Seq<char> {
        let head = seq!['@', kind_letter(self.kind), '.'] + self.key;
        match self.value {
            Some(v) => head + seq!['.'] + v + seq!['@'],
            None => head + seq!['@'],
        }
    }
}

impl SymbolView {
    /// Whether the symbol matches without consuming input.
    pub open spec fn is_epsilon(self) -> bool {
        match self {
            SymbolView::Special(s) => s == SpecialSymbol::EPSILON,
            SymbolView::Flag(_) => true,
            SymbolView::Text(_, _) => false,
            SymbolView::Raw(v) => (v[0] & 1) != 0,
        }
    }

    /// Whether the symbol stands for input outside the alphabet.
    pub open spec fn is_unknown(self) -> bool {
        match self {
            SymbolView::Special(_) => false,
            SymbolView::Flag(_) => false,
            SymbolView::Text(_, unknown) => unknown,
            SymbolView::Raw(v) => (v[0] & 2) != 0,
        }
    }

    /// The textual form of the symbol.
    pub open spec fn text(self) -> Seq<char> {
        match self {
            SymbolView::Special(s) => special_text(s),
            SymbolView::Flag(f) => f.text(),
            SymbolView::Text(t, _) => t,
            SymbolView::Raw(v) => "RawSymbol(["@ + raw_items(v, v.len() as int) + "])"@,
        }
    }
}

impl View for StringSymbol {
    type V = SymbolView;

    open spec fn view(&self) -> SymbolView {
        SymbolView::Text(self.string@, self.unknown)
    }
}

impl View for FlagDiacriticSymbol {
    type V = FlagView;

    open spec fn view(&self) -> FlagView {
        FlagView {
            kind: self.flag_type,
            key: self.key@,
            value: match self.value {
                Some(v) => Some(v@),
                None => None,
            },
        }
    }
}

impl View for RawSymbol {
    type V = SymbolView;

    open spec fn view(&self) -> SymbolView {
        SymbolView::Raw(self.value@)
    }
}

impl View for Symbol {
    type V = SymbolView;

    open spec fn view(&self) -> SymbolView {
        match self {
            Symbol::Special(s) => SymbolView::Special(*s),
            Symbol::Flag(f) => SymbolView::Flag(f@),
            Symbol::String(s) => s@,
            Symbol::Raw(r) => r@,
        }
    }
}

/// The flag diacritic that `s` begins with, and the number of characters it
/// takes. After `@`, the letter of a kind and a point: where a further point
/// follows at least one character, the key ends there and the value runs up
/// to the next `@`, which at least one character precedes; otherwise the key
/// runs up to the next `@`, which at least one character precedes.
pub open spec fn flag_prefix(s: Seq<char>) -> Option<(FlagView, int)> {
    if s.len() < 3 || s[0] != '@' || letter_kind(s[1]) is None || s[2] != '.' {
        None
    } else {
        let kind = letter_kind(s[1])->0;
        let dot = position_from(s, '.', 3);
        if 3 < dot < s.len() {
            let at = position_from(s, '@', dot + 1);
            if dot + 1 < at < s.len() {
                Some(
                    (
                        FlagView {
                            kind,
                            key: s.subrange(3, dot),
                            value: Some(s.subrange(dot + 1, at)),
                        },
                        at + 1,
                    ),
                )
            } else {
                None
            }
        } else {
            let at = position_from(s, '@', 3);
            if 3 < at < s.len() {
                Some((FlagView { kind, key: s.subrange(3, at), value: None }, at + 1))
            } else {
                None
            }
        }
    }
}

/// The special symbol that `s` begins with, and the number of characters it
/// takes.
pub open spec fn special_prefix(s: Seq<char>) -> Option<(SpecialSymbol, int)> {
    if occurs_at(s, 0, epsilon_text()) {
        Some((SpecialSymbol::EPSILON, epsilon_text().len() as int))
    } else if occurs_at(s, 0, epsilon_short_text()) {
        Some((SpecialSymbol::EPSILON, epsilon_short_text().len() as int))
    } else if occurs_at(s, 0, identity_text()) {
        Some((SpecialSymbol::IDENTITY, identity_text().len() as int))
    } else if occurs_at(s, 0, unknown_text()) {
        Some((SpecialSymbol::UNKNOWN, unknown_text().len() as int))
    } else {
        None
    }
}

/// Whether the whole of `s` is the text of a special symbol.
pub open spec fn is_special_text(s: Seq<char>) -> bool {
    match special_prefix(s) {
        Some((_, n)) => n == s.len(),
        None => false,
    }
}

/// The symbol that the whole of `s` denotes: a flag diacritic where `s` is
/// one, else a special symbol where `s` is one, else the plain symbol with
/// that text; the empty text denotes none.
pub open spec fn symbol_of_text(s: Seq<char>) -> Option<SymbolView> {
    match flag_prefix(s) {
        Some((flag, n)) if n == s.len() => Some(SymbolView::Flag(flag)),
        _ => match special_prefix(s) {
            Some((special, n)) if n == s.len() => Some(SymbolView::Special(special)),
            _ => if s.len() > 0 {
                Some(SymbolView::Text(s, false))
            } else {
                None
            },
        },
    }
}

/// The letter of a kind denotes that kind, and a letter that denotes a kind
/// is the letter of it.
pub proof fn lemma_kind_letter(c: char)
    ensures
        letter_kind(c) matches Some(k) ==> kind_letter(k) == c,
{
}

/// A symbol that a text denotes is denoted by its own text: reading the
/// text that is written for it gives the symbol back.
pub proof fn lemma_denoted_symbol(text: Seq<char>)
    ensures
        symbol_of_text(text) matches Some(s) ==> symbol_of_text(s.text()) == Some(s),
{
    reveal_strlit("@_EPSILON_SYMBOL_@");
    reveal_strlit("@0@");
    reveal_strlit("@_IDENTITY_SYMBOL_@");
    reveal_strlit("@_UNKNOWN_SYMBOL_@");
    if let Some(s) = symbol_of_text(text) {
        match s {
            SymbolView::Flag(f) => {
                lemma_kind_letter(text[1]);
                let dot = position_from(text, '.', 3);
                crate::text::lemma_position_from(text, '.', 3);
                if 3 < dot < text.len() {
                    crate::text::lemma_position_from(text, '@', dot + 1);
                } else {
                    crate::text::lemma_position_from(text, '@', 3);
                }
                assert(f.text() =~= text);
            },
            SymbolView::Special(sp) => {
                let t = special_text(sp);
                assert(t.subrange(0, t.len() as int) =~= t);
                assert(flag_prefix(t) is None);
                if sp == SpecialSymbol::EPSILON {
                    assert(occurs_at(t, 0, epsilon_text()));
                } else if sp == SpecialSymbol::IDENTITY {
                    assert(!occurs_at(t, 0, epsilon_text())) by {
                        if occurs_at(t, 0, epsilon_text()) {
                            assert(t.subrange(0, 18)[2] == epsilon_text()[2]);
                        }
                    }
                    assert(!occurs_at(t, 0, epsilon_short_text())) by {
                        if occurs_at(t, 0, epsilon_short_text()) {
                            assert(t.subrange(0, 3)[1] == epsilon_short_text()[1]);
                        }
                    }
                    assert(occurs_at(t, 0, identity_text()));
                } else {
                    assert(!occurs_at(t, 0, epsilon_text())) by {
                        if occurs_at(t, 0, epsilon_text()) {
                            assert(t.subrange(0, 18)[2] == epsilon_text()[2]);
                        }
                    }
                    assert(!occurs_at(t, 0, epsilon_short_text())) by {
                        if occurs_at(t, 0, epsilon_short_text()) {
                            assert(t.subrange(0, 3)[1] == epsilon_short_text()[1]);
                        }
                    }
                    assert(!occurs_at(t, 0, identity_text()));
                    assert(occurs_at(t, 0, unknown_text()));
                }
            },
            _ => {},
        }
    }
}

impl Clone for StringSymbol {
    fn clone(&self) -> (r: Self)
        ensures
            r@ == self@,
    {
        StringSymbol { string: slice_all(&self.string), unknown: self.unknown }
    }
}

impl Clone for FlagDiacriticSymbol {
    fn clone(&self) -> (r: Self)
        ensures
            r@ == self@,
    {
        FlagDiacriticSymbol {
            flag_type: self.flag_type,
            key: slice_all(&self.key),
            value: match &self.value {
                Some(v) => Some(slice_all(v)),
                None => None,
            },
        }
    }
}

impl Clone for Symbol {
    fn clone(&self) -> (r: Self)
        ensures
            r@ == self@,
    {
        match self {
            Symbol::Special(s) => Symbol::Special(*s),
            Symbol::Flag(f) => Symbol::Flag(f.clone()),
            Symbol::String(s) => Symbol::String(s.clone()),
            Symbol::Raw(r) => Symbol::Raw(*r),
        }
    }
}

impl RawSymbol {
    /// A raw symbol with the given bytes.
    pub fn new(value: [u8; 15]) -> (r: Self)
        ensures
            r.value == value,
    {
        RawSymbol { value }
    }

    /// Whether the lowest bit of the first byte is set.
    pub fn is_epsilon(&self) -> (r: bool)
        ensures
            r == self@.is_epsilon(),
    {
        (self.value[0] & 1) != 0
    }

    /// Whether the second lowest bit of the first byte is set.
    pub fn is_unknown(&self) -> (r: bool)
        ensures
            r == self@.is_unknown(),
    {
        (self.value[0] & 2) != 0
    }

    /// Whether two raw symbols hold the same bytes.
    pub fn same(&self, other: &RawSymbol) -> (r: bool)
        ensures
            r == (self@ == other@),
    {
        let mut i: usize = 0;
        while i < 15
            invariant
                i <= 15,
                forall|j: int| 0 <= j < i ==> self.value@[j] == other.value@[j],
            decreases 15 - i,
        {
            if self.value[i] != other.value[i] {
                assert(self.value@[i as int] != other.value@[i as int]);
                return false;
            }
            i += 1;
        }
        assert(self.value@ =~= other.value@);
        true
    }

    /// The characters of the textual form.
    pub fn text(&self) -> (r: Vec<char>)
        ensures
            r@ == self@.text(),
    {
        let mut out = chars_of("RawSymbol([");
        let ghost head = out@;
        let mut i: usize = 0;
        while i < 15
            invariant
                i <= 15,
                head == "RawSymbol(["@,
                out@ == head + raw_items(self.value@, i as int),
            decreases 15 - i,
        {
            if i > 0 {
                out.push(',');
                out.push(' ');
            }
            push_decimal(&mut out, self.value[i] as u64);
            assert(out@ =~= head + raw_items(self.value@, i + 1));
            i += 1;
        }
        let tail = chars_of("])");
        append_chars(&mut out, &tail);
        out
    }

    /// The textual form: `RawSymbol([`, the bytes in decimal, separated by a
    /// comma and a space, and `])`.
    pub fn get_symbol(&self) -> (r: String)
        ensures
            r@ == self@.text(),
    {
        string_of(&self.text())
    }
}

impl StringSymbol {
    /// The symbol with the given text.
    pub fn new(string: String, unknown: bool) -> (r: Self)
        ensures
            r@ == SymbolView::Text(string@, unknown),
    {
        StringSymbol { string: chars_of(string.as_str()), unknown }
    }

    /// The symbol with the given characters.
    pub fn from_chars(string: Vec<char>, unknown: bool) -> (r: Self)
        ensures
            r@ == SymbolView::Text(string@, unknown),
    {
        StringSymbol { string, unknown }
    }

    /// Reads a known symbol from a text, all of it. Only the empty text is
    /// refused.
    pub fn parse(symbol: &str) -> (r: Result<(&'static str, StringSymbol), KfstError>)
        ensures
            match r {
                Ok((rest, s)) => symbol@.len() > 0 && rest@.len() == 0 && s@ == SymbolView::Text(
                    symbol@,
                    false,
                ),
                Err(e) => symbol@.len() == 0 && e == KfstError::Symbol,
            },
    {
        let chars = chars_of(symbol);
        if chars.len() == 0 {
            return Err(KfstError::Symbol);
        }
        proof {
            reveal_strlit("");
        }
        Ok(("", StringSymbol { string: chars, unknown: false }))
    }

    /// Never: a plain symbol consumes input.
    pub fn is_epsilon(&self) -> (r: bool)
        ensures
            r == self@.is_epsilon(),
    {
        false
    }

    /// Whether the symbol counts as unknown.
    pub fn is_unknown(&self) -> (r: bool)
        ensures
            r == self@.is_unknown(),
    {
        self.unknown
    }

    /// The characters of the text.
    pub fn text(&self) -> (r: Vec<char>)
        ensures
            r@ == self@.text(),
    {
        slice_all(&self.string)
    }

    /// The text of the symbol.
    pub fn get_symbol(&self) -> (r: String)
        ensures
            r@ == self@.text(),
    {
        string_of(&self.string)
    }
}

impl FlagDiacriticType {
    /// The kind that a one-letter text denotes.
    pub fn from_str(s: &str) -> (r: Option<Self>)
        ensures
            r == if s@.len() == 1 {
                letter_kind(s@[0])
            } else {
                None
            },
    {
        let chars = chars_of(s);
        if chars.len() != 1 {
            return None;
        }
        kind_of_letter(chars[0])
    }

    /// The letter of the kind.
    pub fn letter(&self) -> (c: char)
        ensures
            c == kind_letter(*self),
    {
        match self {
            FlagDiacriticType::U => 'U',
            FlagDiacriticType::R => 'R',
            FlagDiacriticType::D => 'D',
            FlagDiacriticType::C => 'C',
            FlagDiacriticType::P => 'P',
            FlagDiacriticType::N => 'N',
        }
    }
}

fn kind_of_letter(c: char) -> (r: Option<FlagDiacriticType>)
    ensures
        r == letter_kind(c),
{
    if c == 'U' {
        Some(FlagDiacriticType::U)
    } else if c == 'R' {
        Some(FlagDiacriticType::R)
    } else if c == 'D' {
        Some(FlagDiacriticType::D)
    } else if c == 'C' {
        Some(FlagDiacriticType::C)
    } else if c == 'P' {
        Some(FlagDiacriticType::P)
    } else if c == 'N' {
        Some(FlagDiacriticType::N)
    } else {
        None
    }
}

/// Reads the flag diacritic that `s` begins with.
pub fn read_flag(s: &Vec<char>) -> (r: Option<(FlagDiacriticSymbol, usize)>)
    ensures
        match r {
            Some((f, n)) => flag_prefix(s@) == Some((f@, n as int)) && n <= s.len(),
            None => flag_prefix(s@) is None,
        },
{
    let n = s.len();
    assert(s@.subrange(0, n as int) == s@);
    if n < 3 || s[0] != '@' || s[2] != '.' {
        return None;
    }
    let kind = match kind_of_letter(s[1]) {
        Some(k) => k,
        None => {
            return None;
        },
    };
    let dot = find_char(s, '.', 3, n);
    if 3 < dot && dot < n {
        let at = find_char(s, '@', dot + 1, n);
        if dot + 1 < at && at < n {
            Some(
                (
                    FlagDiacriticSymbol {
                        flag_type: kind,
                        key: slice_chars(s, 3, dot),
                        value: Some(slice_chars(s, dot + 1, at)),
                    },
                    at + 1,
                ),
            )
        } else {
            None
        }
    } else {
        let at = find_char(s, '@', 3, n);
        if 3 < at && at < n {
            Some(
                (
                    FlagDiacriticSymbol {
                        flag_type: kind,
                        key: slice_chars(s, 3, at),
                        value: None,
                    },
                    at + 1,
                ),
            )
        } else {
            None
        }
    }
}

impl FlagDiacriticSymbol {
    /// Reads a flag diacritic from the beginning of a text and returns it
    /// with the rest of the text.
    pub fn parse(symbol: &str) -> (r: Result<(&str, FlagDiacriticSymbol), KfstError>)
        ensures
            match r {
                Ok((rest, f)) => match flag_prefix(symbol@) {
                    Some((flag, n)) => flag == f@ && rest@ == symbol@.subrange(
                        n,
                        symbol@.len() as int,
                    ),
                    None => false,
                },
                Err(e) => flag_prefix(symbol@) is None && e == KfstError::Symbol,
            },
    {
        let chars = chars_of(symbol);
        match read_flag(&chars) {
            Some((f, n)) => Ok((symbol.substring_char(n, chars.len()), f)),
            None => Err(KfstError::Symbol),
        }
    }

    /// Reads a flag diacritic from a text, all of it.
    pub fn from_symbol_string(symbol: &str) -> (r: Result<Self, KfstError>)
        ensures
            match r {
                Ok(f) => symbol_of_text(symbol@) == Some(SymbolView::Flag(f@)),
                Err(e) => !(symbol_of_text(symbol@) matches Some(SymbolView::Flag(_))) && e
                    == KfstError::Symbol,
            },
    {
        let chars = chars_of(symbol);
        match read_flag(&chars) {
            Some((f, n)) => {
                if n == chars.len() {
                    Ok(f)
                } else {
                    Err(KfstError::Symbol)
                }
            },
            None => Err(KfstError::Symbol),
        }
    }

    /// Whether the whole of a text is a flag diacritic.
    pub fn is_flag_diacritic(symbol: &str) -> (r: bool)
        ensures
            r == (symbol_of_text(symbol@) matches Some(SymbolView::Flag(_))),
    {
        let chars = chars_of(symbol);
        match read_flag(&chars) {
            Some((_, n)) => n == chars.len(),
            None => false,
        }
    }

    /// The flag diacritic of the kind that `flag_type` names, with the given
    /// key and value. Fails where `flag_type` is not one of the six letters.
    pub fn new(flag_type: String, key: String, value: Option<String>) -> (r: Result<
        Self,
        KfstError,
    >)
        ensures
            match r {
                Ok(f) => flag_type@.len() == 1 && letter_kind(flag_type@[0]) == Some(f@.kind)
                    && f@.key == key@ && f@.value == match value {
                    Some(v) => Some(v@),
                    None => None,
                },
                Err(e) => (flag_type@.len() != 1 || letter_kind(flag_type@[0]) is None) && e
                    == KfstError::FlagType,
            },
    {
        match FlagDiacriticType::from_str(flag_type.as_str()) {
            Some(kind) => Ok(
                FlagDiacriticSymbol {
                    flag_type: kind,
                    key: chars_of(key.as_str()),
                    value: match value {
                        Some(v) => Some(chars_of(v.as_str())),
                        None => None,
                    },
                },
            ),
            None => Err(KfstError::FlagType),
        }
    }

    /// The name of the flag.
    pub fn key(&self) -> (r: String)
        ensures
            r@ == self@.key,
    {
        string_of(&self.key)
    }

    /// The value, of a diacritic that has one.
    pub fn value(&self) -> (r: String)
        requires
            self@.value is Some,
        ensures
            r@ == self@.value->0,
    {
        match &self.value {
            Some(v) => string_of(v),
            None => String::new(),
        }
    }

    /// Always: a flag diacritic consumes no input.
    pub fn is_epsilon(&self) -> (r: bool)
        ensures
            r,
    {
        true
    }

    /// Never.
    pub fn is_unknown(&self) -> (r: bool)
        ensures
            !r,
    {
        false
    }

    /// The characters of the textual form.
    pub fn text(&self) -> (r: Vec<char>)
        ensures
            r@ == self@.text(),
    {
        let mut out: Vec<char> = Vec::new();
        out.push('@');
        out.push(self.flag_type.letter());
        out.push('.');
        append_chars(&mut out, &self.key);
        match &self.value {
            Some(v) => {
                out.push('.');
                append_chars(&mut out, v);
            },
            None => {},
        }
        out.push('@');
        assert(out@ =~= self@.text());
        out
    }

    /// The textual form.
    pub fn get_symbol(&self) -> (r: String)
        ensures
            r@ == self@.text(),
    {
        string_of(&self.text())
    }

    /// The letter of the kind, as a text.
    pub fn flag_type(&self) -> (r: String)
        ensures
            r@ == seq![kind_letter(self@.kind)],
    {
        let mut out: Vec<char> = Vec::new();
        out.push(self.flag_type.letter());
        string_of(&out)
    }
}

/// Reads the special symbol that `s` begins with.
pub fn read_special(s: &Vec<char>) -> (r: Option<(SpecialSymbol, usize)>)
    ensures
        match r {
            Some((sym, n)) => special_prefix(s@) == Some((sym, n as int)) && n <= s.len(),
            None => special_prefix(s@) is None,
        },
{
    let epsilon = chars_of("@_EPSILON_SYMBOL_@");
    let short = chars_of("@0@");
    let identity = chars_of("@_IDENTITY_SYMBOL_@");
    let unknown = chars_of("@_UNKNOWN_SYMBOL_@");
    if has_at(s, 0, &epsilon) {
        Some((SpecialSymbol::EPSILON, epsilon.len()))
    } else if has_at(s, 0, &short) {
        Some((SpecialSymbol::EPSILON, short.len()))
    } else if has_at(s, 0, &identity) {
        Some((SpecialSymbol::IDENTITY, identity.len()))
    } else if has_at(s, 0, &unknown) {
        Some((SpecialSymbol::UNKNOWN, unknown.len()))
    } else {
        None
    }
}

impl SpecialSymbol {
    /// Reads a special symbol from the beginning of a text and returns it
    /// with the rest of the text.
    pub fn parse(symbol: &str) -> (r: Result<(&str, SpecialSymbol), KfstError>)
        ensures
            match r {
                Ok((rest, s)) => match special_prefix(symbol@) {
                    Some((special, n)) => special == s && rest@ == symbol@.subrange(
                        n,
                        symbol@.len() as int,
                    ),
                    None => false,
                },
                Err(e) => special_prefix(symbol@) is None && e == KfstError::Symbol,
            },
    {
        let chars = chars_of(symbol);
        match read_special(&chars) {
            Some((s, n)) => Ok((symbol.substring_char(n, chars.len()), s)),
            None => Err(KfstError::Symbol),
        }
    }

    /// Reads a special symbol from a text, all of it.
    pub fn from_symbol_string(symbol: &str) -> (r: Result<Self, KfstError>)
        ensures
            match r {
                Ok(s) => special_prefix(symbol@) == Some((s, symbol@.len() as int)),
                Err(e) => !is_special_text(symbol@) && e == KfstError::Symbol,
            },
    {
        let chars = chars_of(symbol);
        match read_special(&chars) {
            Some((s, n)) => {
                if n == chars.len() {
                    Ok(s)
                } else {
                    Err(KfstError::Symbol)
                }
            },
            None => Err(KfstError::Symbol),
        }
    }

    /// Whether the whole of a text is a special symbol.
    pub fn is_special_symbol(symbol: &str) -> (r: bool)
        ensures
            r == is_special_text(symbol@),
    {
        let chars = chars_of(symbol);
        match read_special(&chars) {
            Some((_, n)) => n == chars.len(),
            None => false,
        }
    }

    /// Whether this is the epsilon symbol.
    pub fn is_epsilon(&self) -> (r: bool)
        ensures
            r == (*self == SpecialSymbol::EPSILON),
    {
        match self {
            SpecialSymbol::EPSILON => true,
            _ => false,
        }
    }

    /// Never.
    pub fn is_unknown(&self) -> (r: bool)
        ensures
            !r,
    {
        false
    }

    /// The characters of the textual form.
    pub fn text(&self) -> (r: Vec<char>)
        ensures
            r@ == special_text(*self),
    {
        match self {
            SpecialSymbol::EPSILON => chars_of("@_EPSILON_SYMBOL_@"),
            SpecialSymbol::IDENTITY => chars_of("@_IDENTITY_SYMBOL_@"),
            SpecialSymbol::UNKNOWN => chars_of("@_UNKNOWN_SYMBOL_@"),
        }
    }

    /// The textual form; epsilon has the long one.
    pub fn get_symbol(&self) -> (r: String)
        ensures
            r@ == special_text(*self),
    {
        string_of(&self.text())
    }
}

/// Reads the symbol that the whole of `s` denotes.
pub fn read_symbol(s: &Vec<char>) -> (r: Option<Symbol>)
    ensures
        match r {
            Some(sym) => symbol_of_text(s@) == Some(sym@),
            None => symbol_of_text(s@) is None,
        },
{
    match read_flag(s) {
        Some((f, n)) => {
            if n == s.len() {
                return Some(Symbol::Flag(f));
            }
        },
        None => {},
    }
    match read_special(s) {
        Some((sym, n)) => {
            if n == s.len() {
                return Some(Symbol::Special(sym));
            }
        },
        None => {},
    }
    if s.len() > 0 {
        Some(Symbol::String(StringSymbol { string: slice_all(s), unknown: false }))
    } else {
        None
    }
}

impl Symbol {
    /// Whether the symbol matches without consuming input: the epsilon
    /// symbol, every flag diacritic, and a raw symbol marked so.
    pub fn is_epsilon(&self) -> (r: bool)
        ensures
            r == self@.is_epsilon(),
    {
        match self {
            Symbol::Special(s) => s.is_epsilon(),
            Symbol::Flag(f) => f.is_epsilon(),
            Symbol::String(s) => s.is_epsilon(),
            Symbol::Raw(r) => r.is_epsilon(),
        }
    }

    /// Whether the symbol stands for input outside the alphabet.
    pub fn is_unknown(&self) -> (r: bool)
        ensures
            r == self@.is_unknown(),
    {
        match self {
            Symbol::Special(s) => s.is_unknown(),
            Symbol::Flag(f) => f.is_unknown(),
            Symbol::String(s) => s.is_unknown(),
            Symbol::Raw(r) => r.is_unknown(),
        }
    }

    /// The characters of the textual form.
    pub fn text(&self) -> (r: Vec<char>)
        ensures
            r@ == self@.text(),
    {
        match self {
            Symbol::Special(s) => s.text(),
            Symbol::Flag(f) => f.text(),
            Symbol::String(s) => s.text(),
            Symbol::Raw(r) => r.text(),
        }
    }

    /// The textual form.
    pub fn get_symbol(&self) -> (r: String)
        ensures
            r@ == self@.text(),
    {
        string_of(&self.text())
    }

    /// Reads a symbol from a text, all of it: a flag diacritic where the
    /// text is one, else a special symbol where it is one, else a known
    /// plain symbol. Only the empty text is refused.
    pub fn parse(symbol: &str) -> (r: Result<(&'static str, Symbol), KfstError>)
        ensures
            match r {
                Ok((rest, sym)) => rest@.len() == 0 && symbol_of_text(symbol@) == Some(sym@),
                Err(e) => symbol@.len() == 0 && e == KfstError::Symbol,
            },
    {
        let chars = chars_of(symbol);
        proof {
            reveal_strlit("");
        }
        match read_symbol(&chars) {
            Some(sym) => Ok(("", sym)),
            None => Err(KfstError::Symbol),
        }
    }

    /// Whether two symbols are the same.
    pub fn same(&self, other: &Symbol) -> (r: bool)
        ensures
            r == (self@ == other@),
    {
        match (self, other) {
            (Symbol::Special(a), Symbol::Special(b)) => *a == *b,
            (Symbol::Flag(a), Symbol::Flag(b)) => {
                let values = match (&a.value, &b.value) {
                    (Some(x), Some(y)) => chars_eq(x, y),
                    (None, None) => true,
                    _ => false,
                };
                a.flag_type == b.flag_type && chars_eq(&a.key, &b.key) && values
            },
            (Symbol::String(a), Symbol::String(b)) => a.unknown == b.unknown && chars_eq(
                &a.string,
                &b.string,
            ),
            (Symbol::Raw(a), Symbol::Raw(b)) => a.same(b),
            _ => false,
        }
    }
}

/// The symbol that a text denotes, if any.
pub fn from_symbol_string(symbol: &str) -> (r: Option<Symbol>)
    ensures
        match r {
            Some(sym) => symbol_of_text(symbol@) == Some(sym@),
            None => symbol_of_text(symbol@) is None,
        },
{
    let chars = chars_of(symbol);
    read_symbol(&chars)
}

} // verus!
