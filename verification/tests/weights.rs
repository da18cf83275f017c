use kfst_rs::flags::update_flags;
use kfst_rs::weight::parse_weight;
use kfst_rs::{FlagDiacriticSymbol, FlagMap, StringSymbol, Symbol, Weight};

fn weight(value: f64) -> Weight {
    Weight { bits: value.to_bits() }
}

fn read(text: &str) -> Option<Weight> {
    parse_weight(&text.chars().collect())
}

fn samples() -> Vec<f64> {
    let mut values = vec![
        0.0,
        -0.0,
        1.0,
        -1.0,
        0.5,
        0.1,
        0.2,
        0.3,
        1e-320,
        -1e-320,
        5e-324,
        2.2250738585072014e-308,
        1.7976931348623157e308,
        -1.7976931348623157e308,
        1e16,
        9007199254740993.0,
        3.141592653589793,
        f64::INFINITY,
        f64::NEG_INFINITY,
        123456.789,
        -0.000123,
    ];
    let mut seed: u64 = 0x2545_f491_4f6c_dd1d;
    for _ in 0..200 {
        seed ^= seed << 13;
        seed ^= seed >> 7;
        seed ^= seed << 17;
        let value = f64::from_bits(seed);
        if !value.is_nan() {
            values.push(value);
        }
        let exponent = ((seed >> 20) % 40) as i32 - 20;
        values.push(((seed % 2_000_001) as f64 - 1_000_000.0) * 10f64.powi(exponent));
    }
    values
}

#[test]
fn plus_is_the_sum_of_binary64_numbers() {
    let values = samples();
    for &a in &values {
        for &b in &values {
            let sum = weight(a).plus(&weight(b));
            let expected = a + b;
            if expected.is_nan() {
                assert!(f64::from_bits(sum.bits).is_nan());
            } else {
                assert_eq!(sum.bits, expected.to_bits(), "{} + {}", a, b);
            }
        }
    }
}

#[test]
fn plus_is_not_its_first_argument() {
    assert_eq!(weight(1.0).plus(&weight(2.0)), weight(3.0));
    assert_eq!(weight(0.0).plus(&weight(2.0)), weight(2.0));
    assert_eq!(Weight::zero().bits, 0);
}

#[test]
fn at_most_orders_weights_as_numbers() {
    let values = samples();
    for &a in &values {
        for &b in &values {
            assert_eq!(weight(a).at_most(&weight(b)), a <= b, "{} <= {}", a, b);
        }
    }
}

#[test]
fn a_nan_lies_beyond_the_infinity_of_its_sign() {
    let nan = Weight { bits: 0x7ff8_0000_0000_0000 };
    let negative_nan = Weight { bits: 0xfff8_0000_0000_0000 };
    assert!(weight(f64::INFINITY).at_most(&nan));
    assert!(!nan.at_most(&weight(f64::INFINITY)));
    assert!(negative_nan.at_most(&weight(f64::NEG_INFINITY)));
    assert!(!weight(f64::NEG_INFINITY).at_most(&negative_nan));
    assert!(nan.at_most(&nan));
}

#[test]
fn only_the_two_zeros_are_zero_valued() {
    assert!(weight(0.0).zero_valued());
    assert!(weight(-0.0).zero_valued());
    assert!(!weight(5e-324).zero_valued());
    assert!(!weight(-1.0).zero_valued());
    assert!(!weight(f64::NAN).zero_valued());
}

#[test]
fn decimal_numerals_are_read_as_the_nearest_binary64_number() {
    for text in [
        "0",
        "1",
        "1.0",
        "1.000000",
        "0.5",
        "10",
        "10.000000",
        "2.5",
        "+2.5",
        "-2.5",
        "-0",
        "-0.0",
        ".5",
        "5.",
        "1e5",
        "1E5",
        "1e+5",
        "1.5e-3",
        "1.e2",
        ".5E2",
        "0.1",
        "0.2",
        "0.30000000000000004",
        "123456789.123456789",
        "1.7976931348623157e308",
        "1.7976931348623159e308",
        "1e999",
        "-1e999",
        "2.2250738585072014e-308",
        "4.9e-324",
        "2e-324",
        "1e-999",
        "9007199254740993",
        "9007199254740992.5",
        "0.000000000000000000000000000000000000000000001",
        "00012.5000",
        "179769313486231580793728971405303415079934132710037826936173778980444968292764750946649017977587207096330286416692887910946555547851940402630657488671505820681908902000708383676273854845817711531764475730270069855571366959622842914819860834936475292719074168444365510704342711559699508093042880177904174497791",
    ] {
        let expected: f64 = text.parse().unwrap();
        assert_eq!(read(text), Some(weight(expected)), "{}", text);
    }
}

#[test]
fn numerals_of_written_weights_are_read_back() {
    for value in samples() {
        let text = format!("{}", value);
        assert_eq!(read(&text), Some(weight(value)), "{}", text);
    }
}

#[test]
fn infinities_and_nan_are_read_in_any_case() {
    assert_eq!(read("inf"), Some(weight(f64::INFINITY)));
    assert_eq!(read("+inf"), Some(weight(f64::INFINITY)));
    assert_eq!(read("-inf"), Some(weight(f64::NEG_INFINITY)));
    assert_eq!(read("Infinity"), Some(weight(f64::INFINITY)));
    assert_eq!(read("-INFINITY"), Some(weight(f64::NEG_INFINITY)));
    assert_eq!(read("INF"), Some(weight(f64::INFINITY)));
    assert_eq!(read("nan").unwrap().bits, 0x7ff8_0000_0000_0000);
    assert_eq!(read("NaN").unwrap().bits, 0x7ff8_0000_0000_0000);
    assert_eq!(read("-nan").unwrap().bits, 0xfff8_0000_0000_0000);
    for text in ["inf", "-inf", "infinity", "nan", "NaN", "-nan", "+NAN"] {
        let expected: f64 = text.parse().unwrap();
        let found = f64::from_bits(read(text).unwrap().bits);
        assert_eq!(found.is_nan(), expected.is_nan());
        assert_eq!(found.is_sign_negative(), expected.is_sign_negative());
        if !expected.is_nan() {
            assert_eq!(found, expected);
        }
    }
}

#[test]
fn what_is_no_decimal_numeral_is_refused() {
    for text in [
        "", ".", "+", "-", "e5", "1e", "1e+", ".e1", "0x10", "0x1p3", "1_0", " 1", "1 ", "--1",
        "+-1", "infinit", "in", "nanx", "snan", "1.2.3", "1e5.5", "1,5", "١", "1f", "abc", "1e5e5",
        "inf.", "NaN1",
    ] {
        assert!(text.parse::<f64>().is_err(), "{}", text);
        assert_eq!(read(text), None, "{}", text);
    }
}

fn key(text: &str) -> Vec<char> {
    text.chars().collect()
}

fn flag(kind: &str, name: &str, value: Option<&str>) -> Symbol {
    Symbol::Flag(
        FlagDiacriticSymbol::new(
            kind.to_string(),
            name.to_string(),
            value.map(|v| v.to_string()),
        )
        .unwrap(),
    )
}

fn set(polarity: bool, value: &str) -> FlagMap {
    FlagMap::new().with(key("K"), polarity, Some(key(value)))
}

#[test]
fn a_register_keeps_what_is_set_in_it() {
    let empty = FlagMap::new();
    assert_eq!(empty.get(&key("K")), None);
    let one = empty.with(key("K"), true, Some(key("V")));
    assert_eq!(one.get(&key("K")), Some((true, Some(key("V")))));
    assert_eq!(one.get(&key("L")), None);
    assert_eq!(empty.get(&key("K")), None);
    let two = one.with(key("K"), false, None);
    assert_eq!(two.get(&key("K")), Some((false, None)));
    assert_eq!(one.get(&key("K")), Some((true, Some(key("V")))));
    assert_eq!(two.without(&key("K")), FlagMap::new());
    assert_eq!(two.without(&key("L")), two);
    assert_eq!(one.clone(), one);
}

#[test]
fn unification_sets_a_free_flag_and_checks_a_set_one() {
    let u = flag("U", "K", Some("V"));
    assert_eq!(update_flags(&u, &FlagMap::new()), Some(set(true, "V")));
    assert_eq!(update_flags(&u, &set(true, "V")), Some(set(true, "V")));
    assert_eq!(update_flags(&u, &set(true, "W")), None);
    assert_eq!(update_flags(&u, &set(false, "V")), None);
    assert_eq!(update_flags(&u, &set(false, "W")), Some(set(true, "V")));
    let other = FlagMap::new().with(key("L"), true, Some(key("W")));
    assert_eq!(
        update_flags(&u, &other),
        Some(other.with(key("K"), true, Some(key("V"))))
    );
}

#[test]
fn requirement_wants_the_flag_set_and_in_agreement() {
    let r = flag("R", "K", Some("V"));
    assert_eq!(update_flags(&r, &FlagMap::new()), None);
    assert_eq!(update_flags(&r, &set(true, "V")), Some(set(true, "V")));
    assert_eq!(update_flags(&r, &set(true, "W")), None);
    assert_eq!(update_flags(&r, &set(false, "V")), None);
    assert_eq!(update_flags(&r, &set(false, "W")), Some(set(false, "W")));
    let bare = flag("R", "K", None);
    assert_eq!(update_flags(&bare, &FlagMap::new()), None);
    assert_eq!(update_flags(&bare, &set(true, "V")), Some(set(true, "V")));
    assert_eq!(update_flags(&bare, &set(false, "V")), Some(set(false, "V")));
}

#[test]
fn denial_wants_the_flag_free_or_in_disagreement() {
    let d = flag("D", "K", Some("V"));
    assert_eq!(update_flags(&d, &FlagMap::new()), Some(FlagMap::new()));
    assert_eq!(update_flags(&d, &set(true, "V")), None);
    assert_eq!(update_flags(&d, &set(true, "W")), Some(set(true, "W")));
    assert_eq!(update_flags(&d, &set(false, "V")), Some(set(false, "V")));
    assert_eq!(update_flags(&d, &set(false, "W")), None);
    let bare = flag("D", "K", None);
    assert_eq!(update_flags(&bare, &FlagMap::new()), Some(FlagMap::new()));
    assert_eq!(update_flags(&bare, &set(true, "V")), None);
    assert_eq!(update_flags(&bare, &set(false, "V")), None);
}

#[test]
fn clearing_and_setting_always_pass() {
    let c = flag("C", "K", None);
    assert_eq!(update_flags(&c, &FlagMap::new()), Some(FlagMap::new()));
    assert_eq!(update_flags(&c, &set(true, "V")), Some(FlagMap::new()));
    assert_eq!(
        update_flags(&flag("C", "K", Some("V")), &set(false, "W")),
        Some(FlagMap::new())
    );
    let p = flag("P", "K", Some("V"));
    assert_eq!(update_flags(&p, &FlagMap::new()), Some(set(true, "V")));
    assert_eq!(update_flags(&p, &set(false, "W")), Some(set(true, "V")));
    let n = flag("N", "K", Some("V"));
    assert_eq!(update_flags(&n, &FlagMap::new()), Some(set(false, "V")));
    assert_eq!(update_flags(&n, &set(true, "V")), Some(set(false, "V")));
}

#[test]
fn a_flag_set_without_a_value_agrees_with_no_value() {
    let bare = FlagMap::new().with(key("K"), true, None);
    assert_eq!(
        update_flags(&flag("P", "K", None), &FlagMap::new()),
        Some(bare.clone())
    );
    assert_eq!(update_flags(&flag("R", "K", Some("V")), &bare), None);
    assert_eq!(
        update_flags(&flag("D", "K", Some("V")), &bare),
        Some(bare.clone())
    );
    assert_eq!(update_flags(&flag("U", "K", Some("V")), &bare), None);
    assert_eq!(
        update_flags(&flag("U", "K", None), &bare),
        Some(bare.clone())
    );
}

#[test]
fn other_symbols_leave_the_register_alone() {
    let register = set(true, "V");
    let plain = Symbol::String(StringSymbol::new("K".to_string(), false));
    assert_eq!(update_flags(&plain, &register), Some(register.clone()));
    let epsilon = Symbol::parse("@0@").unwrap().1;
    assert_eq!(update_flags(&epsilon, &register), Some(register));
}

#[test]
fn numerals_at_the_limits_are_read_as_the_nearest_number() {
    let zeros = "0".repeat(400);
    let nines = "9".repeat(900);
    let cases = vec![
        "1e99999999999999999999".to_string(),
        "1e-99999999999999999999".to_string(),
        "0e99999999999999999999".to_string(),
        "-1e+99999999999999999999".to_string(),
        format!("0.{}1e400", zeros),
        format!("1{}e-400", zeros),
        format!("{}", nines),
        format!("0.{}", nines),
        format!("{}.{}e-900", nines, nines),
        "1e2147483647".to_string(),
        "1e2147483648".to_string(),
        "1e-2147483648".to_string(),
        "1e-2147483649".to_string(),
        "1e4294967296".to_string(),
        "1e4294967297".to_string(),
        "1e-4294967297".to_string(),
        "0.0e0".to_string(),
        "00000000000000000000000000000000000000001".to_string(),
        "1.00000000000000011102230246251565404236316680908203125".to_string(),
        "1.00000000000000011102230246251565404236316680908203124".to_string(),
        "1.00000000000000011102230246251565404236316680908203126".to_string(),
        "1.0000000000000002".to_string(),
        "8.98846567431158e307".to_string(),
        "2.4703282292062327e-324".to_string(),
        "2.4703282292062328e-324".to_string(),
        "1.7976931348623158e308".to_string(),
        "1.797693134862315807e308".to_string(),
        "1.797693134862315808e308".to_string(),
        "0.1e-0".to_string(),
        "1e0000000000000000000000000000000000000000005".to_string(),
        "+.0".to_string(),
        "-.0e-0".to_string(),
        "-0e5".to_string(),
    ];
    for text in cases {
        let expected = text.parse::<f64>().ok().map(|v| v.to_bits());
        let found = parse_weight(&text.chars().collect()).map(|w| w.bits);
        assert!(expected.is_some());
        assert_eq!(found, expected, "{}", text);
    }
}
