//! Flag registers and the effect of a flag diacritic on one.
//!
//! A register maps the name of a flag to a polarity and a value. It is kept
//! in a persistent hash map, so that the many registers of a search share
//! their structure.

use crate::symbol::{FlagDiacriticType, FlagView, Symbol, SymbolView};
use crate::text::chars_eq;
use vstd::prelude::*;

verus! {

/// `im::HashMap`, the persistent hash map that holds a register.
#[verifier::external_type_specification]
#[verifier::external_body]
#[verifier::reject_recursive_types(K)]
#[verifier::reject_recursive_types(V)]
#[verifier::reject_recursive_types(S)]
pub struct ExImHashMap<K, V, S>(im::HashMap<K, V, S>);

/// The map that holds a register.
pub type Register = im::HashMap<Vec<char>, (bool, Option<Vec<char>>)>;

/// What a register is: for each flag that is set, whether it is set
/// positively, and to which value, if to any.
pub type RegisterView = Map<Seq<char>, (bool, Option<Seq<char>>)>;

/// What a register holds.
pub uninterp spec fn register_entries(m: Register) -> RegisterView;

/// The characters of an optional text.
pub open spec fn value_view(v: Option<Vec<char>>) -> Option<Seq<char>> {
    match v {
        Some(t) => Some(t@),
        None => None,
    }
}

/// `im::HashMap::new`: a map without entries.
#[verifier::external_body]
fn register_new() -> (r: Register)
    ensures
        register_entries(r) == RegisterView::empty(),
{
    im::HashMap::new()
}

/// `Clone` of `im::HashMap`: a map with the same entries.
#[verifier::external_body]
fn register_clone(m: &Register) -> (r: Register)
    ensures
        register_entries(r) == register_entries(*m),
{
    m.clone()
}

/// `im::HashMap::get`: the entry stored under the key, if there is one; the
/// entry is handed out as a copy.
#[verifier::external_body]
fn register_get(m: &Register, key: &Vec<char>) -> (r: Option<(bool, Option<Vec<char>>)>)
    ensures
        match r {
            Some((polarity, value)) => register_entries(*m).contains_key(key@) && register_entries(
                *m,
            )[key@] == (polarity, value_view(value)),
            None => !register_entries(*m).contains_key(key@),
        },
{
    m.get(key).cloned()
}

/// `im::HashMap::update`: a new map with the entries of the old one and the
/// given entry, which replaces an entry under the same key.
#[verifier::external_body]
fn register_update(m: &Register, key: Vec<char>, polarity: bool, value: Option<Vec<char>>) -> (r:
    Register)
    ensures
        register_entries(r) == register_entries(*m).insert(key@, (polarity, value_view(value))),
{
    m.update(key, (polarity, value))
}

/// `im::HashMap::without`: a new map with the entries of the old one but the
/// one under the given key.
#[verifier::external_body]
fn register_without(m: &Register, key: &Vec<char>) -> (r: Register)
    ensures
        register_entries(r) == register_entries(*m).remove(key@),
{
    m.without(key)
}

/// A flag register.
#[derive(Debug, PartialEq, Hash)]
pub struct FlagMap(pub Register);

impl View for FlagMap {
    type V = RegisterView;

    open spec fn view(&self) -> RegisterView {
        register_entries(self.0)
    }
}

impl Clone for FlagMap {
    fn clone(&self) -> (r: Self)
        ensures
            r@ == self@,
    {
        FlagMap(register_clone(&self.0))
    }
}

/// Whether a stored entry agrees with a queried value: a positive entry
/// where the values are the same, a negative one where they differ.
pub open spec fn agrees(stored: (bool, Option<Seq<char>>), queried: Option<Seq<char>>) -> bool {
    stored.0 == (stored.1 == queried)
}

/// The register after a symbol has been passed, or `None` where the symbol
/// bars the way. Only flag diacritics look at the register or change it:
/// - unification fails where the flag is set and disagrees with the value,
///   and else sets the flag positively;
/// - requirement without a value passes where the flag is set, and with a
///   value where the flag is set and agrees with it;
/// - denial without a value passes where the flag is not set, and with a
///   value where the flag is not set or disagrees with it;
/// - clearing removes the flag;
/// - positive and negative setting set the flag with that polarity.
pub open spec fn updated(symbol: SymbolView, register: RegisterView) -> Option<RegisterView> {
    match symbol {
        SymbolView::Flag(f) => match f.kind {
            FlagDiacriticType::U => if register.contains_key(f.key) && !agrees(
                register[f.key],
                f.value,
            ) {
                None
            } else {
                Some(register.insert(f.key, (true, f.value)))
            },
            FlagDiacriticType::R => if register.contains_key(f.key) && (f.value is None || agrees(
                register[f.key],
                f.value,
            )) {
                Some(register)
            } else {
                None
            },
            FlagDiacriticType::D => if !register.contains_key(f.key) || (f.value is Some
                && !agrees(register[f.key], f.value)) {
                Some(register)
            } else {
                None
            },
            FlagDiacriticType::C => Some(register.remove(f.key)),
            FlagDiacriticType::P => Some(register.insert(f.key, (true, f.value))),
            FlagDiacriticType::N => Some(register.insert(f.key, (false, f.value))),
        },
        _ => Some(register),
    }
}

/// After a flag has been set positively to a value, a requirement of the
/// flag passes exactly where it asks for that value, and a denial of the
/// flag exactly where it asks for another.
pub proof fn lemma_set_then_require(
    register: RegisterView,
    key: Seq<char>,
    set: Seq<char>,
    asked: Seq<char>,
)
    ensures
        updated(
            SymbolView::Flag(FlagView { kind: FlagDiacriticType::P, key, value: Some(set) }),
            register,
        ) matches Some(after) && (updated(
            SymbolView::Flag(FlagView { kind: FlagDiacriticType::R, key, value: Some(asked) }),
            after,
        ) is Some <==> asked == set) && (updated(
            SymbolView::Flag(FlagView { kind: FlagDiacriticType::D, key, value: Some(asked) }),
            after,
        ) is Some <==> asked != set),
{
}

fn copy_value(v: &Option<Vec<char>>) -> (r: Option<Vec<char>>)
    ensures
        value_view(r) == value_view(*v),
{
    match v {
        Some(t) => {
            let c = crate::text::slice_chars(t, 0, t.len());
            assert(t@.subrange(0, t.len() as int) == t@);
            Some(c)
        },
        None => None,
    }
}

fn same_value(a: &Option<Vec<char>>, b: &Option<Vec<char>>) -> (r: bool)
    ensures
        r == (value_view(*a) == value_view(*b)),
{
    match (a, b) {
        (Some(x), Some(y)) => chars_eq(x, y),
        (None, None) => true,
        _ => false,
    }
}

impl FlagMap {
    /// The register in which no flag is set.
    pub fn new() -> (r: Self)
        ensures
            r@ == RegisterView::empty(),
    {
        FlagMap(register_new())
    }

    /// The entry of a flag, if the flag is set.
    pub fn get(&self, key: &Vec<char>) -> (r: Option<(bool, Option<Vec<char>>)>)
        ensures
            match r {
                Some((polarity, value)) => self@.contains_key(key@) && self@[key@] == (
                    polarity,
                    value_view(value),
                ),
                None => !self@.contains_key(key@),
            },
    {
        register_get(&self.0, key)
    }

    /// The register with one flag set anew.
    pub fn with(&self, key: Vec<char>, polarity: bool, value: Option<Vec<char>>) -> (r: Self)
        ensures
            r@ == self@.insert(key@, (polarity, value_view(value))),
    {
        FlagMap(register_update(&self.0, key, polarity, value))
    }

    /// The register with one flag cleared.
    pub fn without(&self, key: &Vec<char>) -> (r: Self)
        ensures
            r@ == self@.remove(key@),
    {
        FlagMap(register_without(&self.0, key))
    }
}

/// Passes a symbol: the register after it, or `None` where the symbol bars
/// the way.
pub fn update_flags(symbol: &Symbol, flags: &FlagMap) -> (r: Option<FlagMap>)
    ensures
        match r {
            Some(m) => updated(symbol@, flags@) == Some(m@),
            None => updated(symbol@, flags@) is None,
        },
{
    match symbol {
        Symbol::Flag(f) => {
            let key = &f.key;
            let value = &f.value;
            match f.flag_type {
                FlagDiacriticType::U => {
                    match flags.get(key) {
                        Some((polarity, stored)) => {
                            if polarity != same_value(&stored, value) {
                                return None;
                            }
                        },
                        None => {},
                    }
                    Some(flags.with(crate::text::slice_all(key), true, copy_value(value)))
                },
                FlagDiacriticType::R => {
                    match flags.get(key) {
                        Some((polarity, stored)) => {
                            if value.is_none() || polarity == same_value(&stored, value) {
                                Some(flags.clone())
                            } else {
                                None
                            }
                        },
                        None => None,
                    }
                },
                FlagDiacriticType::D => {
                    match flags.get(key) {
                        Some((polarity, stored)) => {
                            if value.is_some() && polarity != same_value(&stored, value) {
                                Some(flags.clone())
                            } else {
                                None
                            }
                        },
                        None => Some(flags.clone()),
                    }
                },
                FlagDiacriticType::C => Some(flags.without(key)),
                FlagDiacriticType::P => Some(
                    flags.with(crate::text::slice_all(key), true, copy_value(value)),
                ),
                FlagDiacriticType::N => Some(
                    flags.with(crate::text::slice_all(key), false, copy_value(value)),
                ),
            }
        },
        _ => Some(flags.clone()),
    }
}

} // verus!
