use kfst_rs::explore::EPSILON_LIMIT;
use kfst_rs::{
    FSTState, FlagMap, KfstError, RawSymbol, SpecialSymbol, StringSymbol, Symbol, Weight, FST,
};

fn weight(value: f64) -> Weight {
    Weight { bits: value.to_bits() }
}

fn value(w: Weight) -> f64 {
    f64::from_bits(w.bits)
}

fn plain(text: &str, unknown: bool) -> Symbol {
    Symbol::String(StringSymbol::new(text.to_string(), unknown))
}

fn att(code: &str) -> FST {
    FST::from_att_code(code.to_string(), false).unwrap()
}

fn spelled(symbols: &[Symbol]) -> String {
    symbols.iter().map(|s| s.get_symbol()).collect()
}

#[test]
fn path_weight_is_the_sum_of_the_weights_on_the_way() {
    let fst = att("0\t1\ta\tx\t0.5\n1\t2\tb\ty\t0.25\n2\t1.5");
    let result = fst.run_fst(
        vec![plain("a", false), plain("b", false)],
        FSTState::default(),
        false,
    );
    assert_eq!(result.len(), 1);
    assert!(result[0].0);
    assert_eq!(value(result[0].2.path_weight), 0.5 + 0.25 + 1.5);
    assert_eq!(result[0].2.state_num, 2);
}

#[test]
fn sums_are_rounded_as_binary64_sums_are() {
    let fst = att("0\t1\ta\tx\t0.1\n1\t2\tb\ty\t0.2\n2\t0.3");
    let found = fst.lookup("ab", FSTState::default(), false).unwrap();
    assert_eq!(found.len(), 1);
    assert_eq!(found[0].0, "xy");
    assert_eq!(found[0].1.bits, (((0.0f64 + 0.1) + 0.2) + 0.3).to_bits());
}

#[test]
fn the_search_starts_from_the_weight_of_the_given_state() {
    let fst = att("0\t1\ta\tx\t1\n1");
    let state = FSTState::new(0, weight(2.5), vec![], vec![], vec![plain("seen", false)]);
    let found = fst.lookup("a", state, false).unwrap();
    assert_eq!(found, vec![("seenx".to_string(), weight(3.5))]);
}

#[test]
fn a_path_that_ends_outside_a_final_state_is_reported_as_incomplete() {
    let fst = att("0\t1\ta\tb\n2");
    let result = fst.run_fst(vec![plain("a", false)], FSTState::default(), false);
    assert_eq!(result.len(), 1);
    assert!(!result[0].0);
    assert_eq!(result[0].2.state_num, 1);
    assert_eq!(fst.lookup("a", FSTState::default(), false).unwrap(), vec![]);
}

#[test]
fn output_holds_no_epsilon_and_no_flag() {
    let fst = att("0\t1\ta\t@0@\n1\t2\t@P.X.Y@\t@P.X.Y@\n2\t3\tb\t@_EPSILON_SYMBOL_@\n3\t4\t@0@\tz\n4");
    let result = fst.run_fst(
        vec![plain("a", false), plain("b", false)],
        FSTState::default(),
        false,
    );
    let complete: Vec<_> = result.into_iter().filter(|x| x.0).collect();
    assert_eq!(complete.len(), 1);
    assert_eq!(complete[0].2.output_symbols, vec![plain("z", false)]);
    for symbol in &complete[0].2.output_symbols {
        assert!(!symbol.is_epsilon());
    }
}

#[test]
fn identity_on_the_output_side_hands_the_input_symbol_on() {
    let fst = att("0\t1\t@_IDENTITY_SYMBOL_@\t@_IDENTITY_SYMBOL_@\n1\t2\tb\t@_IDENTITY_SYMBOL_@\n2");
    let result = fst.run_fst(
        vec![plain("q", true), plain("b", false)],
        FSTState::default(),
        false,
    );
    let complete: Vec<_> = result.into_iter().filter(|x| x.0).collect();
    assert_eq!(complete.len(), 1);
    assert_eq!(
        complete[0].2.output_symbols,
        vec![plain("q", true), plain("b", false)]
    );
}

#[test]
fn identity_is_emitted_itself_where_nothing_is_consumed() {
    let fst = att("0\t1\t@0@\t@_IDENTITY_SYMBOL_@\n1\t2\ta\tb\n1\n2");
    let result = fst.run_fst(vec![], FSTState::default(), false);
    let complete: Vec<_> = result.into_iter().filter(|x| x.0).collect();
    assert_eq!(complete.len(), 1);
    assert_eq!(
        complete[0].2.output_symbols,
        vec![Symbol::Special(SpecialSymbol::IDENTITY)]
    );
    let result = fst.run_fst(vec![plain("a", false)], FSTState::default(), false);
    let complete: Vec<_> = result.into_iter().filter(|x| x.0).collect();
    assert_eq!(complete.len(), 1);
    assert_eq!(
        complete[0].2.output_symbols,
        vec![Symbol::Special(SpecialSymbol::IDENTITY), plain("b", false)]
    );
}

#[test]
fn the_unknown_rule_is_tried_before_the_identity_rule() {
    let fst = att("0\t1\t@_IDENTITY_SYMBOL_@\ti\n0\t2\t@_UNKNOWN_SYMBOL_@\tu\n1\n2");
    let result = fst.run_fst(vec![plain("x", true)], FSTState::default(), false);
    let nodes: Vec<u64> = result.iter().map(|x| x.2.state_num).collect();
    assert_eq!(nodes, vec![2, 1]);
}

#[test]
fn rules_are_followed_in_the_order_in_which_they_were_given() {
    let fst = att("0\t3\ta\tx\n0\t1\t@0@\ty\n0\t2\ta\tz\n1\n2\n3");
    let result = fst.run_fst(vec![plain("a", false)], FSTState::default(), false);
    let nodes: Vec<u64> = result.iter().map(|x| x.2.state_num).collect();
    assert_eq!(nodes, vec![3, 2]);
    let result = fst.run_fst(vec![], FSTState::default(), false);
    let nodes: Vec<u64> = result.iter().map(|x| x.2.state_num).collect();
    assert_eq!(nodes, vec![0, 1]);
}

#[test]
fn the_mark_is_handed_on_and_set_after_epsilon_at_the_end() {
    let fst = att("0\t1\t@0@\ty\n0\n1");
    let result = fst.run_fst(vec![], FSTState::default(), false);
    let marks: Vec<(bool, bool, u64)> = result.iter().map(|x| (x.0, x.1, x.2.state_num)).collect();
    assert_eq!(marks, vec![(true, false, 0), (true, true, 1)]);
    let result = fst.run_fst(vec![], FSTState::default(), true);
    assert!(result[0].1);
}

#[test]
fn a_positive_setting_lets_a_matching_requirement_pass() {
    let fst = att("0\t1\t@P.K.V@\ta\n1\t2\t@R.K.V@\tb\n2");
    assert_eq!(
        fst.lookup("", FSTState::default(), false).unwrap(),
        vec![("ab".to_string(), weight(0.0))]
    );
}

#[test]
fn a_requirement_of_another_value_bars_the_path() {
    let fst = att("0\t1\t@P.K.V@\ta\n1\t2\t@R.K.W@\tb\n2");
    assert_eq!(fst.lookup("", FSTState::default(), false).unwrap(), vec![]);
}

#[test]
fn flags_on_the_output_side_use_the_output_register() {
    let fst = att("0\t1\ta\t@P.K.V@\n1\t2\t@R.K.V@\tb\n2");
    let result = fst.run_fst(vec![plain("a", false)], FSTState::default(), false);
    assert_eq!(result.iter().filter(|x| x.0).count(), 0);
    let fst = att("0\t1\ta\t@P.K.V@\n1\t2\t@0@\t@R.K.V@\n2");
    let result = fst.run_fst(vec![plain("a", false)], FSTState::default(), false);
    let complete: Vec<_> = result.into_iter().filter(|x| x.0).collect();
    assert_eq!(complete.len(), 1);
    assert_eq!(complete[0].2.input_flags, FlagMap::new());
    assert_eq!(
        complete[0].2.output_flags,
        FlagMap::new().with(vec!['K'], true, Some(vec!['V']))
    );
}

#[test]
fn unification_turns_a_negative_setting_of_another_value_positive() {
    let fst = att("0\t1\t@0@\t@N.K.V@\n1\t2\t@0@\t@U.K.W@\n2\t3\t@0@\t@R.K.W@\n3");
    let result = fst.run_fst(vec![], FSTState::default(), false);
    let complete: Vec<_> = result.into_iter().filter(|x| x.0).collect();
    assert_eq!(complete.len(), 1);
    assert_eq!(
        complete[0].2.output_flags,
        FlagMap::new().with(vec!['K'], true, Some(vec!['W']))
    );
}

#[test]
fn an_unknown_rule_takes_an_unknown_symbol_only() {
    let fst = att("0\t1\t@_UNKNOWN_SYMBOL_@\ty\n1");
    assert_eq!(
        fst.lookup("x", FSTState::default(), true).unwrap(),
        vec![("y".to_string(), weight(0.0))]
    );
    let known = fst.run_fst(vec![plain("x", false)], FSTState::default(), false);
    assert!(known.is_empty());
}

#[test]
fn lookup_orders_by_weight_and_keeps_each_text_once() {
    let fst = att(
        "0\t1\ta\tx\t3\n0\t2\ta\ty\t1\n0\t3\ta\tx\t2\n0\t4\ta\tz\t1\n0\t5\ta\ty\t0.5\n1\n2\n3\n4\n5",
    );
    let found = fst.lookup("a", FSTState::default(), false).unwrap();
    assert_eq!(
        found,
        vec![
            ("y".to_string(), weight(0.5)),
            ("z".to_string(), weight(1.0)),
            ("x".to_string(), weight(2.0)),
        ]
    );
    for i in 0..found.len() {
        for j in (i + 1)..found.len() {
            assert!(value(found[i].1) <= value(found[j].1));
            assert_ne!(found[i].0, found[j].0);
        }
    }
}

#[test]
fn paths_of_one_weight_keep_the_order_of_the_search() {
    let fst = att("0\t1\ta\tq\n0\t2\ta\tp\n0\t3\ta\tr\t-1\n1\n2\n3");
    let found = fst.lookup("a", FSTState::default(), false).unwrap();
    let texts: Vec<&str> = found.iter().map(|x| x.0.as_str()).collect();
    assert_eq!(texts, vec!["r", "q", "p"]);
}

#[test]
fn negative_zero_and_zero_weigh_the_same() {
    let fst = att("0\t1\ta\tq\t0\n0\t2\ta\tp\t-0\n1\n2");
    let found = fst.lookup("a", FSTState::default(), false).unwrap();
    let texts: Vec<&str> = found.iter().map(|x| x.0.as_str()).collect();
    assert_eq!(texts, vec!["q", "p"]);
}

#[test]
fn lookup_fails_with_a_tokenization_error() {
    let fst = att("0\t1\ta\tb\n1");
    assert_eq!(
        fst.lookup("c", FSTState::default(), false),
        Err(KfstError::Tokenization)
    );
    assert_eq!(
        fst.lookup("ac", FSTState::default(), false),
        Err(KfstError::Tokenization)
    );
}

#[test]
fn the_longest_symbol_of_the_alphabet_is_taken() {
    let fst = att("0\t1\ta\tb\n0\t1\tab\tb\n0\t1\tabc\tb\n0\t1\tb\tb\n1");
    let symbols = fst.split_to_symbols("abcabab", false).unwrap();
    let texts: Vec<String> = symbols.iter().map(|s| s.get_symbol()).collect();
    assert_eq!(texts, vec!["abc", "ab", "ab"]);
    assert_eq!(spelled(&symbols), "abcabab");
}

#[test]
fn the_symbols_of_a_text_spell_the_text() {
    let fst = att("0\t1\tä\tb\n0\t1\tää\tö\n0\t1\tl\tl\n1");
    for text in ["", "l", "läää", "äl", "ääää", "öb"] {
        let symbols = fst.split_to_symbols(text, false).unwrap();
        assert_eq!(spelled(&symbols), text);
        for symbol in &symbols {
            assert!(!symbol.is_unknown());
        }
    }
    for text in ["x", "läx€ää", "€€"] {
        assert!(fst.split_to_symbols(text, false).is_none());
        let symbols = fst.split_to_symbols(text, true).unwrap();
        assert_eq!(spelled(&symbols), text);
    }
}

#[test]
fn a_character_outside_the_alphabet_becomes_an_unknown_symbol() {
    let fst = att("0\t1\ta\tb\n1");
    assert_eq!(
        fst.split_to_symbols("a€a", true).unwrap(),
        vec![plain("a", false), plain("€", true), plain("a", false)]
    );
}

#[test]
fn special_symbols_of_the_alphabet_are_found_in_text() {
    let fst = att("0\t1\t@_UNKNOWN_SYMBOL_@\ty\n1");
    assert_eq!(
        fst.split_to_symbols("@_UNKNOWN_SYMBOL_@y", false).unwrap(),
        vec![Symbol::Special(SpecialSymbol::UNKNOWN), plain("y", false)]
    );
}

#[test]
fn a_cycle_of_epsilon_transitions_ends_at_the_limit() {
    let fst = att("0\t0\t@0@\tx\n0");
    let result = fst.run_fst(vec![], FSTState::default(), false);
    assert_eq!(result.len(), EPSILON_LIMIT + 1);
    assert_eq!(result[EPSILON_LIMIT].2.output_symbols.len(), EPSILON_LIMIT);
    let found = fst.lookup("", FSTState::default(), false).unwrap();
    assert_eq!(found.len(), EPSILON_LIMIT + 1);
    assert_eq!(found[0].0, "");
    assert_eq!(found[1].0, "x");
}

#[test]
fn consuming_a_symbol_restores_the_limit() {
    let mut code = String::new();
    for i in 0..EPSILON_LIMIT {
        code.push_str(&format!("{}\t{}\t@0@\t@0@\n", i, i + 1));
    }
    code.push_str(&format!("{}\t{}\ta\tb\n", EPSILON_LIMIT, EPSILON_LIMIT + 1));
    code.push_str(&format!("{}\t{}\t@0@\tc\n", EPSILON_LIMIT + 1, EPSILON_LIMIT + 2));
    code.push_str(&format!("{}", EPSILON_LIMIT + 2));
    let fst = att(&code);
    assert_eq!(
        fst.lookup("a", FSTState::default(), false).unwrap(),
        vec![("bc".to_string(), weight(0.0))]
    );
}

#[test]
fn input_symbols_of_a_state_are_listed_in_order() {
    let fst = att("0\t1\ta\tb\n0\t2\tc\td\n0\t3\ta\te\n");
    assert_eq!(
        fst.get_input_symbols(FSTState::default()),
        vec![plain("a", false), plain("c", false)]
    );
    let elsewhere = FSTState::new(1, weight(0.0), vec![], vec![], vec![]);
    assert_eq!(fst.get_input_symbols(elsewhere), vec![]);
}

#[test]
fn a_state_is_made_of_its_parts() {
    let state = FSTState::new(
        7,
        weight(1.5),
        vec![
            ("A".to_string(), (true, "x".to_string())),
            ("A".to_string(), (false, "y".to_string())),
        ],
        vec![("B".to_string(), (true, "z".to_string()))],
        vec![plain("o", false)],
    );
    assert_eq!(state.state_num, 7);
    assert_eq!(state.path_weight, weight(1.5));
    assert_eq!(
        state.input_flags.get(&vec!['A']),
        Some((false, Some(vec!['y'])))
    );
    assert_eq!(
        state.output_flags.get(&vec!['B']),
        Some((true, Some(vec!['z'])))
    );
    assert_eq!(state.output_flags.get(&vec!['A']), None);
    assert_eq!(state.output_symbols, vec![plain("o", false)]);
    assert_eq!(state.clone(), state);
    let fresh = FSTState::default();
    assert_eq!(fresh.state_num, 0);
    assert_eq!(fresh.path_weight.bits, 0);
    assert_eq!(fresh.input_flags, FlagMap::new());
    assert!(fresh.output_symbols.is_empty());
}

#[test]
fn an_unknown_input_symbol_is_handed_on_even_where_it_is_marked_epsilon() {
    let fst = att("0\t1\t@_IDENTITY_SYMBOL_@\t@_IDENTITY_SYMBOL_@\n1");
    let mut value = [0u8; 15];
    value[0] = 3;
    let both = Symbol::Raw(RawSymbol::new(value));
    assert!(both.is_epsilon() && both.is_unknown());
    let result = fst.run_fst(vec![both.clone()], FSTState::default(), false);
    let complete: Vec<_> = result.into_iter().filter(|x| x.0).collect();
    assert_eq!(complete.len(), 1);
    assert_eq!(complete[0].2.output_symbols, vec![both]);
}

#[test]
fn no_flag_and_no_epsilon_reaches_the_output() {
    let fst = att("0\t1\ta\t@P.K.V@\n1\t2\t@_UNKNOWN_SYMBOL_@\t@0@\n2\t3\t@_IDENTITY_SYMBOL_@\t@_IDENTITY_SYMBOL_@\n3\t4\t@R.K.V@\t@R.K.V@\n3\t4\t@0@\tz\n4");
    let result = fst.run_fst(
        vec![plain("a", false), plain("q", true), plain("r", true)],
        FSTState::default(),
        false,
    );
    let complete: Vec<_> = result.into_iter().filter(|x| x.0).collect();
    assert_eq!(complete.len(), 1);
    assert_eq!(
        complete[0].2.output_symbols,
        vec![plain("r", true), plain("z", false)]
    );
    for symbol in &complete[0].2.output_symbols {
        assert!(!matches!(symbol, Symbol::Flag(_)));
        assert_ne!(symbol, &Symbol::Special(SpecialSymbol::EPSILON));
    }
}
