use kfst_rs::{FSTState, FlagMap, RawSymbol, SpecialSymbol, StringSymbol, Symbol, Weight, FST};

fn weight(value: f64) -> Weight {
    Weight { bits: value.to_bits() }
}

fn start() -> FSTState {
    FSTState::new(0, weight(0.0), vec![], vec![], vec![])
}

#[test]
fn test_that_weight_of_end_state_applies_correctly() {
    let code = "0\t1\ta\tb\n1\t1.0";
    let fst = FST::from_att_code(code.to_string(), false).unwrap();
    assert_eq!(
        fst.lookup("a", start(), false).unwrap(),
        vec![("b".to_string(), weight(1.0))]
    );
}

#[test]
fn test_minimal_r_diacritic() {
    let code = "0\t1\t@P.V_SALLITTU.T@\tasetus\n1\t2\t@R.V_SALLITTU.T@\ttarkistus\n2";
    let fst = FST::from_att_code(code.to_string(), false).unwrap();
    let result = fst.run_fst(vec![], start(), false);
    for x in result {
        println!("{:?}", x);
    }
    assert_eq!(
        fst.lookup("", start(), false).unwrap(),
        vec![("asetustarkistus".to_string(), weight(0.0))]
    );
}

#[test]
fn does_not_crash_on_unknown() {
    let fst = FST::from_att_code("0\t1\ta\tb\n1".to_string(), false).unwrap();
    assert_eq!(fst.lookup("c", start(), true).unwrap(), vec![]);
    assert!(fst.lookup("c", start(), false).is_err());
}

#[test]
fn test_simple_unknown() {
    let code = "0\t1\t@_UNKNOWN_SYMBOL_@\ty\n1";
    let fst = FST::from_att_code(code.to_string(), false).unwrap();

    assert_eq!(
        fst.run_fst(
            vec![Symbol::String(StringSymbol::new("x".to_string(), false))],
            start(),
            false,
        ),
        vec![]
    );

    assert_eq!(
        fst.run_fst(
            vec![Symbol::String(StringSymbol::new("x".to_string(), true))],
            start(),
            false,
        ),
        vec![(
            true,
            false,
            FSTState {
                state_num: 1,
                path_weight: weight(0.0),
                input_flags: FlagMap(im::HashMap::new()),
                output_flags: FlagMap(im::HashMap::new()),
                output_symbols: vec![Symbol::String(StringSymbol::new("y".to_string(), false))]
            }
        )]
    );
}

#[test]
fn test_simple_identity() {
    let code = "0\t1\t@_IDENTITY_SYMBOL_@\t@_IDENTITY_SYMBOL_@\n1";
    let fst = FST::from_att_code(code.to_string(), false).unwrap();

    assert_eq!(
        fst.run_fst(
            vec![Symbol::String(StringSymbol::new("x".to_string(), false))],
            start(),
            false,
        ),
        vec![]
    );

    assert_eq!(
        fst.run_fst(
            vec![Symbol::String(StringSymbol::new("x".to_string(), true))],
            start(),
            false,
        ),
        vec![(
            true,
            false,
            FSTState {
                state_num: 1,
                path_weight: weight(0.0),
                input_flags: FlagMap(im::HashMap::new()),
                output_flags: FlagMap(im::HashMap::new()),
                output_symbols: vec![Symbol::String(StringSymbol::new("x".to_string(), true))]
            }
        )]
    );
}

#[test]
fn test_raw_symbols() {
    let sym_a = Symbol::Raw(RawSymbol {
        value: [0, 1, 0, 0, 0, 0, 0, 0, 0, 0, 0, 0, 0, 0, 0],
    });
    let sym_b = Symbol::Raw(RawSymbol {
        value: [0, 2, 0, 0, 0, 0, 0, 0, 0, 0, 0, 0, 0, 0, 0],
    });
    let sym_c = Symbol::Raw(RawSymbol {
        value: [0, 3, 0, 0, 0, 0, 0, 0, 0, 0, 0, 0, 0, 0, 0],
    });
    let special_epsilon = Symbol::Raw(RawSymbol {
        value: [1, 0, 0, 0, 0, 0, 0, 0, 0, 0, 0, 0, 0, 0, 0],
    });
    let sym_d = Symbol::Raw(RawSymbol {
        value: [0, 4, 0, 0, 0, 0, 0, 0, 0, 0, 0, 0, 0, 0, 0],
    });
    let sym_d_unk = Symbol::Raw(RawSymbol {
        value: [2, 4, 0, 0, 0, 0, 0, 0, 0, 0, 0, 0, 0, 0, 0],
    });
    let identity = Symbol::Special(SpecialSymbol::IDENTITY);
    let rules = vec![
        (0, 1, sym_a.clone(), sym_a.clone(), weight(0.0)),
        (1, 0, sym_b.clone(), sym_b.clone(), weight(0.0)),
        (1, 2, identity.clone(), identity.clone(), weight(0.0)),
        (2, 3, special_epsilon.clone(), sym_c.clone(), weight(0.0)),
    ];
    let symbols = vec![sym_a.clone(), sym_b.clone(), sym_c.clone(), special_epsilon];
    let fst = FST::from_rules(vec![(3, weight(0.0))], rules, symbols, Some(false));

    let result = fst.run_fst(
        vec![
            sym_a.clone(),
            sym_b.clone(),
            sym_a.clone(),
            sym_d_unk.clone(),
        ],
        start(),
        false,
    );
    let filtered: Vec<_> = result.into_iter().filter(|x| x.0).collect();
    assert_eq!(filtered.len(), 1);
    assert_eq!(filtered[0].2.state_num, 3);
    assert_eq!(
        filtered[0].2.output_symbols,
        vec![
            sym_a.clone(),
            sym_b.clone(),
            sym_a.clone(),
            sym_d_unk.clone(),
            sym_c.clone()
        ]
    );

    assert_eq!(
        fst.run_fst(
            vec![sym_a.clone(), sym_b.clone(), sym_a.clone(), sym_d.clone()],
            start(),
            false
        )
        .into_iter()
        .filter(|x| x.0)
        .count(),
        0
    );
}
