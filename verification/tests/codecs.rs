use kfst_rs::att::{read_line, read_rows, split_fields};
use kfst_rs::kfst::{read_body, read_entries, read_front, read_head, read_table, KfstHead};
use kfst_rs::{FSTState, KfstError, StringSymbol, Symbol, Weight, FST};

fn weight(value: f64) -> Weight {
    Weight { bits: value.to_bits() }
}

fn plain(text: &str) -> Symbol {
    Symbol::String(StringSymbol::new(text.to_string(), false))
}

fn chars(text: &str) -> Vec<char> {
    text.chars().collect()
}

fn att(code: &str) -> FST {
    FST::from_att_code(code.to_string(), false).unwrap()
}

fn written(fst: &FST) -> String {
    let numerals: Vec<String> = fst
        .att_weights()
        .iter()
        .map(|w| format!("{}", f64::from_bits(w.bits)))
        .collect();
    fst.to_att_code(&numerals).unwrap()
}

fn packed(body: &[u8]) -> Vec<u8> {
    let mut out = Vec::new();
    let mut input = body;
    lzma_rs::xz_compress(&mut input, &mut out).unwrap();
    out
}

fn unpacked(stream: &[u8]) -> Vec<u8> {
    let mut out = Vec::new();
    let mut input = stream;
    lzma_rs::xz_decompress(&mut input, &mut out).unwrap();
    out
}

fn file(version: u16, symbols: u16, rules: u32, finals: u32, weighted: u8, table: &[u8], body: &[u8]) -> Vec<u8> {
    let mut out = b"KFST".to_vec();
    out.extend(version.to_be_bytes());
    out.extend(symbols.to_be_bytes());
    out.extend(rules.to_be_bytes());
    out.extend(finals.to_be_bytes());
    out.push(weighted);
    out.extend(table);
    out.extend(packed(body));
    out
}

fn load(bytes: &[u8], debug: bool) -> Result<FST, KfstError> {
    let body = match FST::kfst_packed(bytes) {
        Some(stream) => {
            let mut out = Vec::new();
            let mut input = &stream[..];
            match lzma_rs::xz_decompress(&mut input, &mut out) {
                Ok(()) => Some(out),
                Err(_) => None,
            }
        }
        None => None,
    };
    FST::from_kfst_bytes(bytes, body, debug)
}

fn same_parts(a: &FST, b: &FST) {
    assert_eq!(a.final_states(), b.final_states());
    assert_eq!(a.rules(), b.rules());
    assert_eq!(a.symbols(), b.symbols());
}

const SAMPLES: [&str; 5] = [
    "0\t1\ta\tb\n1\t1.0",
    "0\t1\t@P.V_SALLITTU.T@\tasetus\n1\t2\t@R.V_SALLITTU.T@\ttarkistus\n2",
    "0\t1\ta\tb\n1",
    "0\t1\t@_UNKNOWN_SYMBOL_@\ty\n1",
    "0\t1\t@_IDENTITY_SYMBOL_@\t@_IDENTITY_SYMBOL_@\n1",
];

#[test]
fn att_text_is_read_into_finals_rules_and_alphabet() {
    let fst = att("0\t1\ta\tb\t0.5\n0\t2\tc\ta\n1\t2\ta\tb\n0\t3\ta\tc\n2\n1\t1.5\n2\t2");
    assert_eq!(
        fst.final_states(),
        &vec![(2, weight(2.0)), (1, weight(1.5))]
    );
    assert_eq!(
        fst.transitions(),
        vec![
            (0, 1, plain("a"), plain("b"), weight(0.5)),
            (0, 3, plain("a"), plain("c"), weight(0.0)),
            (0, 2, plain("c"), plain("a"), weight(0.0)),
            (1, 2, plain("a"), plain("b"), weight(0.0)),
        ]
    );
    assert_eq!(fst.symbols(), &vec![plain("c"), plain("b"), plain("a")]);
    assert_eq!(fst.rules().len(), 2);
    assert_eq!(fst.rules()[0].source, 0);
    assert_eq!(fst.rules()[0].groups.len(), 2);
    assert_eq!(fst.rules()[0].groups[0].transitions.len(), 2);
    assert!(!fst.debug());
    assert!(FST::from_att_code("0".to_string(), true).unwrap().debug());
}

#[test]
fn att_weights_are_left_out_when_zero() {
    let weighted = "0\t1\tc\tc\t1.000000\n0\t2\td\td\t2.000000\n1\t3\ta\ta\t0.000000\n2\t4\to\to\t0.000000\n3\t5\tt\tt\t0.000000\n4\t5\tg\tg\t0.000000\n5\t6\ts\ts\t10.000000\n5\t0.000000\n6\t0.000000";
    let fst = att(weighted);
    assert_eq!(
        written(&fst),
        "5\n6\n0\t1\tc\tc\t1\n0\t2\td\td\t2\n1\t3\ta\ta\n2\t4\to\to\n3\t5\tt\tt\n4\t5\tg\tg\n5\t6\ts\ts\t10"
    );
    assert_eq!(
        fst.att_weights(),
        vec![weight(1.0), weight(2.0), weight(10.0)]
    );
}

#[test]
fn att_text_of_an_empty_transducer_is_empty() {
    let fst = att("");
    assert_eq!(written(&fst), "");
    assert!(fst.final_states().is_empty());
    assert!(fst.rules().is_empty());
    assert!(fst.symbols().is_empty());
}

#[test]
fn to_att_code_wants_a_numeral_for_each_weight_that_is_not_zero() {
    let fst = att("0\t1\ta\tb\t2\n1\t0.5\n2");
    assert_eq!(fst.att_weights(), vec![weight(0.5), weight(2.0)]);
    assert_eq!(
        fst.to_att_code(&vec!["half".to_string(), "two".to_string()]),
        Some("1\thalf\n2\n0\t1\ta\tb\ttwo".to_string())
    );
    assert_eq!(fst.to_att_code(&vec![]), None);
    assert_eq!(fst.to_att_code(&vec!["0.5".to_string()]), None);
    assert_eq!(
        fst.to_att_code(&vec!["1".to_string(), "2".to_string(), "3".to_string()]),
        None
    );
}

#[test]
fn att_lines_are_split_as_lines_are() {
    for code in [
        "0\t1\ta\tb\n1\n",
        "0\t1\ta\tb\r\n1\r\n",
        "0\t1\ta\tb\r\n1",
        "0\t1\ta\tb\n1",
    ] {
        let fst = att(code);
        assert_eq!(written(&fst), "1\n0\t1\ta\tb", "{:?}", code);
        let rows = read_rows(&chars(code)).unwrap();
        assert_eq!(rows.len(), code.lines().count());
    }
    assert_eq!(att("0\t1\ta\tb\r").transitions()[0].3, plain("b\r"));
}

#[test]
fn att_lines_with_another_number_of_fields_are_skipped() {
    let fst = att("0\t1\ta\n0\t1\ta\tb\n1\t2\t3\t4\t5\t6\n1");
    assert_eq!(written(&fst), "1\n0\t1\ta\tb");
    assert_eq!(read_line(&chars("a\tb\tc")), Some(None));
    assert_eq!(read_line(&chars("1\t2\t3\t4\t5\t6")), Some(None));
}

#[test]
fn a_malformed_att_line_fails_with_its_number() {
    for (code, line) in [
        ("x", 0),
        ("0\n\n1", 1),
        ("0\t1\ta\tb\n1\tx", 1),
        ("0\t1\ta\tb\n-1", 1),
        ("0\t1\ta\tb\n0\t1\t\tb", 1),
        ("0\t1\ta\tb\n0\t1\ta\t", 1),
        ("a\tb\tc\n0\tx\ta\tb", 1),
        ("0\n1\n2\n3\t4\ta\tb\t1e", 3),
        ("18446744073709551616", 0),
        ("0\n\n", 1),
        ("\n", 0),
    ] {
        assert_eq!(
            FST::from_att_code(code.to_string(), false).err(),
            Some(KfstError::AttLine { line }),
            "{:?}",
            code
        );
    }
    assert!(FST::from_att_code("18446744073709551615\n+7".to_string(), false).is_ok());
}

#[test]
fn fields_are_the_parts_between_tabs() {
    assert_eq!(split_fields(&chars("")), vec![chars("")]);
    assert_eq!(split_fields(&chars("a")), vec![chars("a")]);
    assert_eq!(
        split_fields(&chars("a\t\tb\t")),
        vec![chars("a"), chars(""), chars("b"), chars("")]
    );
    let line = "5\t6\t@0@\tä b\t-1.5";
    let expected: Vec<Vec<char>> = line.split('\t').map(chars).collect();
    assert_eq!(split_fields(&chars(line)), expected);
    assert_eq!(
        read_line(&chars(line)),
        Some(Some(Err((
            5,
            6,
            Symbol::parse("@0@").unwrap().1,
            plain("ä b"),
            weight(-1.5)
        ))))
    );
    assert_eq!(
        read_line(&chars("7\t0.25")),
        Some(Some(Ok((7, weight(0.25)))))
    );
    assert_eq!(read_line(&chars("7\tx")), None);
}

#[test]
fn att_text_that_was_written_reads_back_as_the_same_transducer() {
    for code in SAMPLES {
        let fst = att(code);
        let again = att(&written(&fst));
        same_parts(&fst, &again);
        assert_eq!(written(&again), written(&fst));
        for input in ["a", "", "c", "x", "ab"] {
            for allow_unknown in [false, true] {
                assert_eq!(
                    fst.lookup(input, FSTState::default(), allow_unknown),
                    again.lookup(input, FSTState::default(), allow_unknown)
                );
            }
        }
        for unknown in [false, true] {
            let input = vec![Symbol::String(StringSymbol::new("x".to_string(), unknown))];
            assert_eq!(
                fst.run_fst(input.clone(), FSTState::default(), false),
                again.run_fst(input, FSTState::default(), false)
            );
        }
    }
}

#[test]
fn from_att_rows_takes_the_rows_in_order() {
    let rows = vec![
        Err((0, 1, plain("a"), plain("b"), weight(0.0))),
        Ok((1, weight(1.0))),
        Err((0, 2, plain("a"), plain("c"), weight(2.0))),
        Ok((1, weight(3.0))),
        Ok((2, weight(0.0))),
    ];
    let fst = FST::from_att_rows(rows, true);
    assert!(fst.debug());
    assert_eq!(
        fst.final_states(),
        &vec![(1, weight(3.0)), (2, weight(0.0))]
    );
    assert_eq!(written(&fst), "1\t3\n2\n0\t1\ta\tb\n0\t2\ta\tc\t2");
    assert_eq!(fst.symbols(), &vec![plain("c"), plain("b"), plain("a")]);
}

#[test]
fn kfst_bytes_are_laid_out_as_the_format_says() {
    let fst = att("0\t1\ta\tb\n1\t1.0");
    let bytes = fst.to_kfst_bytes().unwrap();
    let mut front = b"KFST".to_vec();
    front.extend([0, 0, 0, 2, 0, 0, 0, 1, 0, 0, 0, 1, 1]);
    front.extend(b"b\0a\0");
    assert_eq!(&bytes[..front.len()], &front[..]);
    let mut body = vec![0, 0, 0, 0, 0, 0, 0, 1, 0, 1, 0, 0];
    body.extend(0.0f64.to_be_bytes());
    body.extend([0, 0, 0, 1]);
    body.extend(1.0f64.to_be_bytes());
    assert_eq!(unpacked(&bytes[front.len()..]), body);
    assert_eq!(&bytes[front.len()..], &packed(&body)[..]);
    let (front_part, body_part) = fst.kfst_parts().unwrap();
    assert_eq!(front_part, front);
    assert_eq!(body_part, body);
}

#[test]
fn kfst_bytes_without_weights_hold_none() {
    let fst = att("0\t258\tä\t@0@\n258");
    let (front, body) = fst.kfst_parts().unwrap();
    let mut expected = b"KFST".to_vec();
    expected.extend([0, 0, 0, 2, 0, 0, 0, 1, 0, 0, 0, 1, 0]);
    expected.extend("ä\0@_EPSILON_SYMBOL_@\0".as_bytes());
    assert_eq!(front, expected);
    assert_eq!(body, vec![0, 0, 0, 0, 0, 0, 1, 2, 0, 0, 0, 1, 0, 0, 1, 2]);
}

#[test]
fn kfst_bytes_that_were_written_read_back_as_the_same_transducer() {
    let mut codes: Vec<String> = SAMPLES.iter().map(|s| s.to_string()).collect();
    codes.push("0\t1\tä\t€\t0.1\n1\t2\t@U.K.V@\t@0@\t-2.5\n0\t2\tab\t@D.K@\n2\t1e300\n1".to_string());
    codes.push("".to_string());
    codes.push("4294967295\t0\ta\ta\n4294967295".to_string());
    for code in codes {
        let fst = att(&code);
        let bytes = fst.to_kfst_bytes().unwrap();
        let again = load(&bytes, false).unwrap();
        same_parts(&fst, &again);
        assert_eq!(again.to_kfst_bytes().unwrap(), bytes);
        assert_eq!(written(&again), written(&fst));
    }
}

#[test]
fn kfst_bytes_made_by_hand_are_read() {
    let mut body = vec![];
    body.extend([0, 0, 0, 0, 0, 0, 0, 1, 0, 1, 0, 0]);
    body.extend(0.5f64.to_be_bytes());
    body.extend([0, 0, 0, 1, 0, 0, 0, 0, 0, 0, 0, 1]);
    body.extend(0.25f64.to_be_bytes());
    body.extend([0, 0, 0, 1]);
    body.extend(2.0f64.to_be_bytes());
    let bytes = file(0, 2, 2, 1, 7, b"x\0y\0", &body);
    let fst = load(&bytes, true).unwrap();
    assert!(!fst.debug());
    assert_eq!(fst.final_states(), &vec![(1, weight(2.0))]);
    assert_eq!(
        fst.transitions(),
        vec![
            (0, 1, plain("y"), plain("x"), weight(0.5)),
            (1, 0, plain("x"), plain("y"), weight(0.25)),
        ]
    );
    assert_eq!(fst.symbols(), &vec![plain("y"), plain("x")]);
    assert_eq!(
        fst.lookup("y", FSTState::default(), false).unwrap(),
        vec![("x".to_string(), weight(0.5 + 2.0))]
    );
    assert_eq!(
        fst.lookup("yxy", FSTState::default(), false).unwrap(),
        vec![("xyx".to_string(), weight(0.5 + 0.25 + 0.5 + 2.0))]
    );
}

#[test]
fn kfst_header_faults_are_told_apart() {
    assert_eq!(load(b"", false).err(), Some(KfstError::Header));
    assert_eq!(load(b"KFST\0", false).err(), Some(KfstError::Header));
    assert_eq!(load(b"KFSX\0\0\0\0", false).err(), Some(KfstError::Header));
    assert_eq!(load(b"KFST\0\x01", false).err(), Some(KfstError::Version));
    assert_eq!(load(b"KFST\x01\0\0\0\0\0\0\0\0\0\0\0\0", false).err(), Some(KfstError::Version));
    assert_eq!(load(b"KFST\0\0", false).err(), Some(KfstError::Metadata));
    assert_eq!(
        load(b"KFST\0\0\0\0\0\0\0\0\0\0\0\0", false).err(),
        Some(KfstError::Metadata)
    );
    let head = read_head(&b"KFST\0\0\x01\x02\0\0\x01\0\0\x01\0\0\x09".to_vec()).unwrap();
    assert_eq!(
        head,
        KfstHead { symbols: 258, transitions: 256, finals: 65536, weighted: true }
    );
}

#[test]
fn kfst_table_faults_are_told_apart() {
    let empty = packed(&[]);
    let with_table = |symbols: u16, table: &[u8]| {
        let mut bytes = b"KFST".to_vec();
        bytes.extend([0, 0]);
        bytes.extend(symbols.to_be_bytes());
        bytes.extend([0, 0, 0, 0, 0, 0, 0, 0, 0]);
        bytes.extend(table);
        bytes.extend(&empty);
        bytes
    };
    assert!(load(&with_table(1, b"a\0"), false).is_ok());
    assert_eq!(
        load(&with_table(2, b"a\0"), false).err(),
        Some(KfstError::Encoding)
    );
    assert_eq!(
        load(&with_table(1, b"\0"), false).err(),
        Some(KfstError::SymbolTable)
    );
    let mut bytes = b"KFST".to_vec();
    bytes.extend([0, 0, 0, 1, 0, 0, 0, 0, 0, 0, 0, 0, 0]);
    bytes.extend(b"abc");
    assert_eq!(
        load(&bytes, false).err(),
        Some(KfstError::SymbolTable)
    );
    assert_eq!(
        load(&with_table(1, b"\xff\0"), false).err(),
        Some(KfstError::Encoding)
    );
    let mut bytes = b"KFST".to_vec();
    bytes.extend([0, 0, 0, 2, 0, 0, 0, 0, 0, 0, 0, 0, 0]);
    bytes.extend(b"\xc3\0a");
    assert_eq!(
        load(&bytes, false).err(),
        Some(KfstError::SymbolTable)
    );
    assert_eq!(
        read_entries(&b"xxab\0c\0rest".to_vec(), 2, 2),
        Some((vec![b"ab".to_vec(), b"c".to_vec()], 7))
    );
    assert_eq!(read_entries(&b"ab\0c".to_vec(), 0, 2), None);
    assert_eq!(
        read_table(vec!["ä".as_bytes().to_vec(), b"@0@".to_vec()]),
        Ok(vec![plain("ä"), Symbol::parse("@0@").unwrap().1])
    );
    assert_eq!(
        read_table(vec![b"a".to_vec(), vec![0xe2, 0x82]]),
        Err(KfstError::Encoding)
    );
}

#[test]
fn kfst_body_faults_are_told_apart() {
    let mut bytes = b"KFST".to_vec();
    bytes.extend([0, 0, 0, 1, 0, 0, 0, 0, 0, 0, 0, 0, 0]);
    bytes.extend(b"a\0");
    bytes.extend(b"no stream");
    assert_eq!(
        load(&bytes, false).err(),
        Some(KfstError::Compression)
    );
    let mut cut = file(0, 1, 0, 0, 0, b"a\0", &[]);
    cut.pop();
    assert_eq!(
        load(&cut, false).err(),
        Some(KfstError::Compression)
    );
    let rule = [0, 0, 0, 0, 0, 0, 0, 1, 0, 0, 0, 0];
    let tail = [0, 0, 0, 1];
    let good: Vec<u8> = rule.iter().chain(tail.iter()).copied().collect();
    assert!(load(&file(0, 1, 1, 1, 0, b"a\0", &good), false).is_ok());
    assert_eq!(
        load(&file(0, 1, 2, 1, 0, b"a\0", &good), false).err(),
        Some(KfstError::Transitions)
    );
    assert_eq!(
        load(&file(0, 1, 1, 2, 0, b"a\0", &good), false).err(),
        Some(KfstError::FinalStates)
    );
    assert_eq!(
        load(&file(0, 1, 1, 0, 0, b"a\0", &good), false).err(),
        Some(KfstError::Trailing)
    );
    assert_eq!(
        load(&file(0, 1, 1, 1, 1, b"a\0", &good), false).err(),
        Some(KfstError::Transitions)
    );
    let beyond = [0, 0, 0, 0, 0, 0, 0, 1, 0, 0, 0, 1, 0, 0, 0, 1];
    assert_eq!(
        load(&file(0, 1, 1, 1, 0, b"a\0", &beyond), false).err(),
        Some(KfstError::SymbolIndex)
    );
    let head = KfstHead { symbols: 1, transitions: 1, finals: 1, weighted: false };
    let fst = read_body(&good, head, vec![plain("a")]).unwrap();
    assert_eq!(fst.transitions(), vec![(0, 1, plain("a"), plain("a"), weight(0.0))]);
    assert_eq!(
        read_body(&beyond.to_vec(), head, vec![plain("a")]).err(),
        Some(KfstError::SymbolIndex)
    );
}

#[test]
fn what_the_format_cannot_hold_is_refused() {
    let large = FST::from_rules(
        vec![],
        vec![(4294967296, 0, plain("a"), plain("a"), weight(0.0))],
        vec![plain("a")],
        None,
    );
    assert_eq!(large.to_kfst_bytes(), Err(KfstError::Range));
    let large = FST::from_rules(
        vec![],
        vec![(0, 4294967296, plain("a"), plain("a"), weight(0.0))],
        vec![plain("a")],
        None,
    );
    assert_eq!(large.to_kfst_bytes(), Err(KfstError::Range));
    let large = FST::from_rules(vec![(4294967296, weight(0.0))], vec![], vec![], None);
    assert_eq!(large.to_kfst_bytes(), Err(KfstError::Range));
    let missing = FST::from_rules(
        vec![],
        vec![(0, 1, plain("a"), plain("b"), weight(0.0))],
        vec![plain("a")],
        None,
    );
    assert_eq!(missing.to_kfst_bytes(), Err(KfstError::Alphabet));
    let missing = FST::from_rules(
        vec![(4294967296, weight(0.0))],
        vec![(0, 1, plain("b"), plain("a"), weight(0.0))],
        vec![plain("a")],
        None,
    );
    assert_eq!(missing.to_kfst_bytes(), Err(KfstError::Alphabet));
}

#[test]
fn the_compressed_part_is_what_follows_the_table() {
    let fst = att("0\t1\ta\tb\n1\t1.0");
    let bytes = fst.to_kfst_bytes().unwrap();
    let (front, body) = fst.kfst_parts().unwrap();
    let stream = FST::kfst_packed(&bytes).unwrap();
    assert_eq!(stream, packed(&body));
    assert_eq!(bytes, [front.clone(), stream.clone()].concat());
    assert_eq!(unpacked(&stream), body);
    let (head, symbols, end) = read_front(&bytes).unwrap();
    assert_eq!(
        head,
        KfstHead { symbols: 2, transitions: 1, finals: 1, weighted: true }
    );
    assert_eq!(symbols, vec![plain("b"), plain("a")]);
    assert_eq!(end, front.len());
    assert_eq!(FST::kfst_packed(b"KFST\0\x01"), None);
    assert_eq!(read_front(&b"KFSX".to_vec()).err(), Some(KfstError::Header));
}

#[test]
fn the_body_is_handed_in_by_the_caller() {
    let fst = att("0\t1\ta\tb\n1\t1.0");
    let bytes = fst.to_kfst_bytes().unwrap();
    let (_, body) = fst.kfst_parts().unwrap();
    let again = FST::from_kfst_bytes(&bytes, Some(body.clone()), false).unwrap();
    same_parts(&fst, &again);
    assert_eq!(
        FST::from_kfst_bytes(&bytes, None, false).err(),
        Some(KfstError::Compression)
    );
    assert_eq!(
        FST::from_kfst_bytes(b"KFST\0\x01", None, false).err(),
        Some(KfstError::Version)
    );
    assert_eq!(
        FST::from_kfst_bytes(b"KFST\0\x01", Some(body.clone()), false).err(),
        Some(KfstError::Version)
    );
    let mut longer = body.clone();
    longer.push(0);
    assert_eq!(
        FST::from_kfst_bytes(&bytes, Some(longer), false).err(),
        Some(KfstError::Trailing)
    );
}

#[test]
fn from_rules_keeps_the_last_weight_of_a_final_state() {
    let fst = FST::from_rules(
        vec![(3, weight(1.0)), (1, weight(2.0)), (3, weight(4.0))],
        vec![],
        vec![plain("q"), plain("q")],
        Some(true),
    );
    assert_eq!(
        fst.final_states(),
        &vec![(3, weight(4.0)), (1, weight(2.0))]
    );
    assert_eq!(fst.final_weight(3), Some(weight(4.0)));
    assert_eq!(fst.final_weight(2), None);
    assert!(fst.groups(0).is_none());
    assert_eq!(fst.symbols(), &vec![plain("q")]);
    assert!(fst.debug());
}

#[test]
fn a_negative_zero_alone_is_written_as_no_weight() {
    let fst = att("0\t1\ta\tb\t-0\n1\t-0.0");
    assert_eq!(fst.final_states(), &vec![(1, weight(-0.0))]);
    assert!(fst.att_weights().is_empty());
    assert_eq!(written(&fst), "1\n0\t1\ta\tb");
    let bytes = fst.to_kfst_bytes().unwrap();
    assert_eq!(bytes[16], 0);
    let again = load(&bytes, false).unwrap();
    assert_eq!(again.final_states(), &vec![(1, weight(0.0))]);
    let weighted = att("0\t1\ta\tb\t-0\n1\t2");
    let again = load(&weighted.to_kfst_bytes().unwrap(), false).unwrap();
    same_parts(&weighted, &again);
    assert_eq!(again.transitions()[0].4, weight(-0.0));
}

#[test]
fn a_carriage_return_at_the_end_of_the_text_stays_in_the_symbol() {
    let fst = att("0\t1\ta\tb\r");
    assert_eq!(fst.transitions()[0].3, plain("b\r"));
    let again = att(&format!("{}\n", written(&fst)));
    assert_eq!(again.transitions()[0].3, plain("b"));
}
