use kfst_rs::alphabet::{make_alphabet, position_of, stands_before};
use kfst_rs::{
    from_symbol_string, FlagDiacriticSymbol, FlagDiacriticType, KfstError, RawSymbol,
    SpecialSymbol, StringSymbol, Symbol,
};

fn plain(text: &str, unknown: bool) -> Symbol {
    Symbol::String(StringSymbol::new(text.to_string(), unknown))
}

fn flag(kind: &str, key: &str, value: Option<&str>) -> FlagDiacriticSymbol {
    FlagDiacriticSymbol::new(
        kind.to_string(),
        key.to_string(),
        value.map(|v| v.to_string()),
    )
    .unwrap()
}

fn parsed(text: &str) -> Symbol {
    Symbol::parse(text).unwrap().1
}

#[test]
fn a_plain_symbol_is_read_from_any_text_but_the_empty_one() {
    let (rest, symbol) = StringSymbol::parse("kissa").unwrap();
    assert_eq!(rest, "");
    assert_eq!(symbol.get_symbol(), "kissa");
    assert!(!symbol.is_unknown());
    assert!(!symbol.is_epsilon());
    assert_eq!(StringSymbol::parse("").unwrap_err(), KfstError::Symbol);
    assert!(StringSymbol::new("x".to_string(), true).is_unknown());
}

#[test]
fn special_symbols_are_read_from_their_texts() {
    assert_eq!(
        SpecialSymbol::from_symbol_string("@_EPSILON_SYMBOL_@"),
        Ok(SpecialSymbol::EPSILON)
    );
    assert_eq!(
        SpecialSymbol::from_symbol_string("@0@"),
        Ok(SpecialSymbol::EPSILON)
    );
    assert_eq!(
        SpecialSymbol::from_symbol_string("@_IDENTITY_SYMBOL_@"),
        Ok(SpecialSymbol::IDENTITY)
    );
    assert_eq!(
        SpecialSymbol::from_symbol_string("@_UNKNOWN_SYMBOL_@"),
        Ok(SpecialSymbol::UNKNOWN)
    );
    assert_eq!(
        SpecialSymbol::from_symbol_string("@_GARBAGE_SYMBOL_@"),
        Err(KfstError::Symbol)
    );
    assert_eq!(
        SpecialSymbol::from_symbol_string("@0@x"),
        Err(KfstError::Symbol)
    );
    assert_eq!(
        SpecialSymbol::parse("@0@rest"),
        Ok(("rest", SpecialSymbol::EPSILON))
    );
    assert_eq!(
        SpecialSymbol::parse("@_UNKNOWN_SYMBOL_@@0@"),
        Ok(("@0@", SpecialSymbol::UNKNOWN))
    );
    assert!(SpecialSymbol::parse("x@0@").is_err());
}

#[test]
fn the_short_epsilon_is_written_in_the_long_form() {
    assert_eq!(
        SpecialSymbol::from_symbol_string("@0@").unwrap().get_symbol(),
        "@_EPSILON_SYMBOL_@"
    );
    assert_eq!(SpecialSymbol::IDENTITY.get_symbol(), "@_IDENTITY_SYMBOL_@");
    assert_eq!(SpecialSymbol::UNKNOWN.get_symbol(), "@_UNKNOWN_SYMBOL_@");
}

#[test]
fn is_special_symbol_accepts_the_four_texts() {
    assert!(SpecialSymbol::is_special_symbol("@0@"));
    assert!(SpecialSymbol::is_special_symbol("@_EPSILON_SYMBOL_@"));
    assert!(SpecialSymbol::is_special_symbol("@_IDENTITY_SYMBOL_@"));
    assert!(SpecialSymbol::is_special_symbol("@_UNKNOWN_SYMBOL_@"));
    assert!(!SpecialSymbol::is_special_symbol("@_GARBAGE_SYMBOL_@"));
    assert!(!SpecialSymbol::is_special_symbol(""));
}

#[test]
fn only_epsilon_is_epsilon_among_the_special_symbols() {
    assert!(SpecialSymbol::EPSILON.is_epsilon());
    assert!(!SpecialSymbol::IDENTITY.is_epsilon());
    assert!(!SpecialSymbol::UNKNOWN.is_epsilon());
    assert!(!SpecialSymbol::EPSILON.is_unknown());
    assert!(!SpecialSymbol::UNKNOWN.is_unknown());
}

#[test]
fn the_kind_of_a_flag_is_one_of_six_letters() {
    assert_eq!(FlagDiacriticType::from_str("U"), Some(FlagDiacriticType::U));
    assert_eq!(FlagDiacriticType::from_str("R"), Some(FlagDiacriticType::R));
    assert_eq!(FlagDiacriticType::from_str("D"), Some(FlagDiacriticType::D));
    assert_eq!(FlagDiacriticType::from_str("C"), Some(FlagDiacriticType::C));
    assert_eq!(FlagDiacriticType::from_str("P"), Some(FlagDiacriticType::P));
    assert_eq!(FlagDiacriticType::from_str("N"), Some(FlagDiacriticType::N));
    assert_eq!(FlagDiacriticType::from_str("X"), None);
    assert_eq!(FlagDiacriticType::from_str(""), None);
    assert_eq!(FlagDiacriticType::from_str("UU"), None);
    assert_eq!(FlagDiacriticType::from_str("u"), None);
}

#[test]
fn a_flag_is_read_with_its_key_and_value() {
    let (rest, f) = FlagDiacriticSymbol::parse("@P.V_SALLITTU.T@").unwrap();
    assert_eq!(rest, "");
    assert_eq!(f.flag_type, FlagDiacriticType::P);
    assert_eq!(f.flag_type(), "P");
    assert_eq!(f.key(), "V_SALLITTU");
    assert_eq!(f.value(), "T");
    assert_eq!(f.get_symbol(), "@P.V_SALLITTU.T@");
    assert!(f.is_epsilon());
    assert!(!f.is_unknown());
    assert_eq!(f, flag("P", "V_SALLITTU", Some("T")));
}

#[test]
fn a_flag_without_a_value_is_read() {
    let (rest, f) = FlagDiacriticSymbol::parse("@R.KEY@tail").unwrap();
    assert_eq!(rest, "tail");
    assert_eq!(f, flag("R", "KEY", None));
    assert_eq!(f.get_symbol(), "@R.KEY@");
    assert_eq!(flag("D", "ä", Some("ö")).get_symbol(), "@D.ä.ö@");
}

#[test]
fn the_key_of_a_flag_ends_at_the_first_point_that_follows_a_character() {
    let (rest, f) = FlagDiacriticSymbol::parse("@U.a.b.c@").unwrap();
    assert_eq!(rest, "");
    assert_eq!(f, flag("U", "a", Some("b.c")));
    let (rest, f) = FlagDiacriticSymbol::parse("@U.a@b.c@").unwrap();
    assert_eq!(rest, "");
    assert_eq!(f, flag("U", "a@b", Some("c")));
    let (rest, f) = FlagDiacriticSymbol::parse("@U..x@").unwrap();
    assert_eq!(rest, "");
    assert_eq!(f, flag("U", ".x", None));
}

#[test]
fn malformed_flags_are_refused() {
    for text in [
        "", "@", "@P", "@P.", "@P.@", "@P.K", "@X.K.V@", "P.K.V@", "@P_K@", "@P.K.@", "@P.K.V",
        "@p.K.V@", "@P.K@x.y",
    ] {
        assert_eq!(
            FlagDiacriticSymbol::parse(text).unwrap_err(),
            KfstError::Symbol
        );
        assert!(!FlagDiacriticSymbol::is_flag_diacritic(text));
    }
}

#[test]
fn is_flag_diacritic_wants_the_whole_text() {
    assert!(FlagDiacriticSymbol::is_flag_diacritic("@P.K.V@"));
    assert!(FlagDiacriticSymbol::is_flag_diacritic("@C.K@"));
    assert!(!FlagDiacriticSymbol::is_flag_diacritic("@P.K.V@x"));
    assert_eq!(
        FlagDiacriticSymbol::from_symbol_string("@N.K.V@"),
        Ok(flag("N", "K", Some("V")))
    );
    assert_eq!(
        FlagDiacriticSymbol::from_symbol_string("@N.K.V@x"),
        Err(KfstError::Symbol)
    );
    assert_eq!(
        FlagDiacriticSymbol::from_symbol_string("kissa"),
        Err(KfstError::Symbol)
    );
}

#[test]
fn a_flag_of_an_unknown_kind_is_refused() {
    assert_eq!(
        FlagDiacriticSymbol::new("X".to_string(), "K".to_string(), None),
        Err(KfstError::FlagType)
    );
    assert_eq!(
        FlagDiacriticSymbol::new("".to_string(), "K".to_string(), None),
        Err(KfstError::FlagType)
    );
}

#[test]
fn a_symbol_is_a_flag_before_it_is_special_before_it_is_plain() {
    assert_eq!(parsed("@D.X.Y@"), Symbol::Flag(flag("D", "X", Some("Y"))));
    assert_eq!(
        parsed("@_EPSILON_SYMBOL_@"),
        Symbol::Special(SpecialSymbol::EPSILON)
    );
    assert_eq!(parsed("@0@"), Symbol::Special(SpecialSymbol::EPSILON));
    assert_eq!(parsed("ladybird"), plain("ladybird", false));
    assert_eq!(parsed("@0@x"), plain("@0@x", false));
    assert_eq!(parsed("@P.K.V@x"), plain("@P.K.V@x", false));
    assert_eq!(parsed("@X.K.V@"), plain("@X.K.V@", false));
    assert_eq!(Symbol::parse("x").unwrap().0, "");
    assert_eq!(Symbol::parse("").unwrap_err(), KfstError::Symbol);
}

#[test]
fn from_symbol_string_gives_the_symbol_or_nothing() {
    assert_eq!(from_symbol_string("example"), Some(plain("example", false)));
    assert_eq!(
        from_symbol_string("@_EPSILON_SYMBOL_@"),
        Some(Symbol::Special(SpecialSymbol::EPSILON))
    );
    assert_eq!(from_symbol_string(""), None);
}

#[test]
fn every_symbol_knows_whether_it_is_epsilon_or_unknown() {
    assert!(parsed("@0@").is_epsilon());
    assert!(parsed("@P.K.V@").is_epsilon());
    assert!(!parsed("@_IDENTITY_SYMBOL_@").is_epsilon());
    assert!(!parsed("a").is_epsilon());
    assert!(!parsed("a").is_unknown());
    assert!(plain("a", true).is_unknown());
    assert!(!parsed("@_UNKNOWN_SYMBOL_@").is_unknown());
    assert_eq!(parsed("@0@").get_symbol(), "@_EPSILON_SYMBOL_@");
    assert_eq!(parsed("@P.K.V@").get_symbol(), "@P.K.V@");
    assert_eq!(parsed("ää").get_symbol(), "ää");
}

#[test]
fn the_first_byte_of_a_raw_symbol_marks_it() {
    let mut value = [0u8; 15];
    assert!(!RawSymbol::new(value).is_epsilon());
    assert!(!RawSymbol::new(value).is_unknown());
    value[0] = 1;
    assert!(RawSymbol::new(value).is_epsilon());
    assert!(!RawSymbol::new(value).is_unknown());
    value[0] = 2;
    assert!(!RawSymbol::new(value).is_epsilon());
    assert!(RawSymbol::new(value).is_unknown());
    value[0] = 7;
    assert!(Symbol::Raw(RawSymbol::new(value)).is_epsilon());
    assert!(Symbol::Raw(RawSymbol::new(value)).is_unknown());
    value[0] = 4;
    assert!(!RawSymbol::new(value).is_epsilon());
    assert!(!RawSymbol::new(value).is_unknown());
}

#[test]
fn a_raw_symbol_is_written_with_its_bytes_in_decimal() {
    let value = [0, 1, 20, 255, 100, 9, 10, 99, 0, 0, 0, 0, 0, 0, 7];
    assert_eq!(
        RawSymbol::new(value).get_symbol(),
        format!("RawSymbol({:?})", value)
    );
    assert_eq!(
        RawSymbol::new(value).get_symbol(),
        "RawSymbol([0, 1, 20, 255, 100, 9, 10, 99, 0, 0, 0, 0, 0, 0, 7])"
    );
    assert_eq!(RawSymbol::new(value).value, value);
}

#[test]
fn symbols_are_the_same_when_their_parts_are() {
    let all = vec![
        plain("a", false),
        plain("a", true),
        plain("b", false),
        parsed("@0@"),
        parsed("@_IDENTITY_SYMBOL_@"),
        parsed("@P.K.V@"),
        parsed("@P.K@"),
        parsed("@R.K.V@"),
        parsed("@P.K.W@"),
        Symbol::Raw(RawSymbol::new([0; 15])),
        Symbol::Raw(RawSymbol::new([1; 15])),
    ];
    for (i, a) in all.iter().enumerate() {
        for (j, b) in all.iter().enumerate() {
            assert_eq!(a.same(b), i == j);
            assert_eq!(a == b, i == j);
        }
        assert!(a.same(&a.clone()));
    }
}

#[test]
fn a_later_text_stands_first_in_an_alphabet() {
    assert!(stands_before(&plain("b", false), &plain("a", false)));
    assert!(!stands_before(&plain("a", false), &plain("b", false)));
    assert!(stands_before(&plain("ab", false), &plain("a", false)));
    assert!(!stands_before(&plain("a", false), &plain("ab", false)));
    assert!(stands_before(&plain("ä", false), &plain("z", false)));
    assert!(stands_before(&plain("a", false), &parsed("@0@")));
    assert!(stands_before(&parsed("@0@"), &parsed("@P.K.V@")));
    assert!(!stands_before(&parsed("@P.K.V@"), &parsed("@0@")));
    assert!(stands_before(&parsed("@_UNKNOWN_SYMBOL_@"), &parsed("@_IDENTITY_SYMBOL_@")));
}

#[test]
fn among_symbols_of_one_text_the_plain_one_stands_first() {
    let text = plain("@_EPSILON_SYMBOL_@", false);
    let unknown = plain("@_EPSILON_SYMBOL_@", true);
    let special = parsed("@0@");
    assert!(stands_before(&text, &special));
    assert!(!stands_before(&special, &text));
    assert!(stands_before(&text, &unknown));
    assert!(!stands_before(&unknown, &text));
    assert!(stands_before(&unknown, &special));
    assert!(!stands_before(&special, &unknown));
    assert!(stands_before(&text, &text));
}

#[test]
fn an_alphabet_is_sorted_and_repeats_nothing() {
    let symbols = vec![
        plain("a", false),
        plain("abc", false),
        parsed("@0@"),
        plain("b", false),
        plain("a", false),
        plain("ab", false),
        parsed("@P.K.V@"),
        plain("a", true),
        plain("abc", false),
        parsed("@_EPSILON_SYMBOL_@"),
    ];
    let alphabet = make_alphabet(&symbols);
    assert_eq!(
        alphabet,
        vec![
            plain("b", false),
            plain("abc", false),
            plain("ab", false),
            plain("a", false),
            plain("a", true),
            parsed("@_EPSILON_SYMBOL_@"),
            parsed("@P.K.V@"),
        ]
    );
    for i in 0..alphabet.len() {
        for j in i..alphabet.len() {
            assert!(stands_before(&alphabet[i], &alphabet[j]));
        }
        assert_eq!(position_of(&alphabet, &alphabet[i]), Some(i));
    }
    assert_eq!(position_of(&alphabet, &plain("zz", false)), None);
    assert_eq!(make_alphabet(&alphabet), alphabet);
}
