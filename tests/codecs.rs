use std::collections::HashMap;
use termpose::{
    deserialize, dewoodify, dewoodify_seq_into, parse_termpose, serialize, woodify, woodify_seq_into,
    biwooder_from_fns, CompositeBiwooder, DefaultBiwooder, DefaultDewooder, DefaultWooder, DewoodifyError, Dewooder,
    FieldScanning, HashMapBi, OptionalBoxBiwooder, PairBi, SequenceTran, TaggedHashMapBi,
    TaggedSequenceTran, Wood, WoodposeError, Wooder,
};

fn leaf(s: &str) -> Wood {
    Wood::leaf(String::from(s))
}

fn leaf_at(s: &str, line: isize, column: isize) -> Wood {
    Wood::Leaf(termpose::Leaf { line, column, v: String::from(s) })
}

fn branch(v: Vec<Wood>) -> Wood {
    Wood::branch(v)
}

fn branch_at(v: Vec<Wood>, line: isize, column: isize) -> Wood {
    Wood::Branch(termpose::Branch { line, column, v })
}

fn leaf_text(w: &Wood) -> String {
    match w {
        Wood::Leaf(l) => l.v.clone(),
        Wood::Branch(_) => panic!("expected a leaf"),
    }
}

#[test]
fn bool_accepts_the_six_words() {
    for s in ["true", "⊤", "yes"] {
        let b: bool = dewoodify(&leaf(s)).unwrap();
        assert!(b);
    }
    for s in ["false", "⟂", "no"] {
        let b: bool = dewoodify(&leaf(s)).unwrap();
        assert!(!b);
    }
}

#[test]
fn bool_rejects_other_words() {
    for s in ["True", "FALSE", "maybe", "", "1"] {
        let r: Result<bool, DewoodifyError> = dewoodify(&leaf_at(s, 3, 7));
        let e = r.unwrap_err();
        assert_eq!(e.msg, "expected a bool here");
        assert_eq!((e.line, e.column), (3, 7));
        assert!(e.cause.is_none());
    }
}

#[test]
fn bool_scenario_true_and_maybe() {
    let t: bool = dewoodify(&leaf("true")).unwrap();
    assert!(t);
    let m: Result<bool, DewoodifyError> = dewoodify(&leaf("maybe"));
    assert!(m.is_err());
}

#[test]
fn bool_encodes_as_words() {
    assert_eq!(leaf_text(&woodify(&true)), "true");
    assert_eq!(leaf_text(&woodify(&false)), "false");
}

#[test]
fn string_from_branch_fails() {
    let r: Result<String, DewoodifyError> = dewoodify(&branch_at(vec![leaf("a")], 2, 4));
    let e = r.unwrap_err();
    assert_eq!(e.msg, "sought string, found branch");
    assert_eq!((e.line, e.column), (2, 4));
}

#[test]
fn char_round_trip_and_failure() {
    let w = woodify(&'x');
    assert_eq!(leaf_text(&w), "x");
    let c: char = dewoodify(&w).unwrap();
    assert_eq!(c, 'x');
    let r: Result<char, DewoodifyError> = dewoodify(&leaf_at("ab", 5, 6));
    let e = r.unwrap_err();
    assert_eq!(e.msg, "couldn't parse char");
    let cause = e.cause().unwrap();
    assert_eq!(cause.description(), "expected exactly one character");
    assert_eq!((cause.line, cause.column), (5, 6));
}

#[test]
fn integers_encode_in_decimal() {
    assert_eq!(leaf_text(&woodify(&-45i64)), "-45");
    assert_eq!(leaf_text(&woodify(&0u32)), "0");
    assert_eq!(leaf_text(&woodify(&i64::MIN)), "-9223372036854775808");
    assert_eq!(leaf_text(&woodify(&u64::MAX)), "18446744073709551615");
    assert_eq!(serialize(&1234567usize), "1234567");
}

#[test]
fn integers_round_trip_at_the_limits() {
    for i in [i64::MIN, -1, 0, 1, i64::MAX] {
        let back: i64 = dewoodify(&woodify(&i)).unwrap();
        assert_eq!(back, i);
    }
    for i in [0u64, 9, 10, u64::MAX] {
        let back: u64 = dewoodify(&woodify(&i)).unwrap();
        assert_eq!(back, i);
    }
    let back: i32 = dewoodify(&woodify(&i32::MIN)).unwrap();
    assert_eq!(back, i32::MIN);
}

#[test]
fn integers_read_signs_and_reject_the_rest() {
    let a: i64 = dewoodify(&leaf("-12")).unwrap();
    assert_eq!(a, -12);
    let b: u32 = dewoodify(&leaf("+7")).unwrap();
    assert_eq!(b, 7);
    let c: Result<u32, DewoodifyError> = dewoodify(&leaf("-1"));
    assert_eq!(c.unwrap_err().msg, "couldn't parse u32");
    let d: Result<i32, DewoodifyError> = dewoodify(&leaf("3000000000"));
    let e = d.unwrap_err();
    assert_eq!(e.msg, "couldn't parse i32");
    assert_eq!(e.cause().unwrap().msg, "not a decimal integer in range");
    for s in ["", "+", "1a", " 1", "99999999999999999999999"] {
        let r: Result<i64, DewoodifyError> = dewoodify(&leaf(s));
        assert!(r.is_err());
    }
}

#[test]
fn sequence_fails_at_the_first_bad_element() {
    let w = branch(vec![leaf("1"), leaf_at("x", 1, 3), leaf_at("y", 1, 5)]);
    let r: Result<Vec<i64>, DewoodifyError> = SequenceTran(DefaultBiwooder).dewoodify(&w);
    let e = r.unwrap_err();
    assert_eq!((e.line, e.column), (1, 3));
}

#[test]
fn sequence_into_appends() {
    let mut out: Vec<Wood> = vec![leaf("head")];
    woodify_seq_into(&DefaultBiwooder, &[true, false], &mut out);
    assert_eq!(out.len(), 3);
    assert_eq!(leaf_text(&out[2]), "false");
    let mut vals: Vec<bool> = vec![true];
    dewoodify_seq_into(&DefaultBiwooder, &out[1..], &mut vals).unwrap();
    assert_eq!(vals, vec![true, true, false]);
}

#[test]
fn nested_text_sequence_scenario() {
    let w = parse_termpose("((tricky list) (parse))").unwrap();
    let tran = SequenceTran(SequenceTran(DefaultBiwooder));
    let lv: Vec<Vec<String>> = tran.dewoodify(&w).unwrap();
    assert_eq!(lv, vec![vec!["tricky".to_string(), "list".to_string()], vec!["parse".to_string()]]);
    assert_eq!(tran.woodify(&lv).to_string(), "((tricky list) (parse))");
}

#[test]
fn tagged_sequence_checks_the_tag() {
    let tran = TaggedSequenceTran("nums", DefaultBiwooder);
    let ok: Vec<u32> = tran.dewoodify(&parse_termpose("nums 1 2 3").unwrap()).unwrap();
    assert_eq!(ok, vec![1, 2, 3]);
    assert_eq!(tran.woodify(&ok).to_string(), "(nums 1 2 3)");

    let empty: Result<Vec<u32>, DewoodifyError> = tran.dewoodify(&branch_at(vec![], 4, 2));
    let e = empty.unwrap_err();
    assert_eq!(e.msg, "expected \"nums\" at beginning, but the wood was empty");
    assert_eq!((e.line, e.column), (4, 2));

    let lead = branch(vec![branch_at(vec![leaf("nums")], 1, 9), leaf("1")]);
    let e = tran.dewoodify(&lead).map(|v: Vec<u32>| v).unwrap_err();
    assert_eq!(e.msg, "expected \"nums\" here, but instead there was a branch wood");
    assert_eq!((e.line, e.column), (1, 9));

    let other = branch(vec![leaf_at("numz", 2, 1), leaf("1")]);
    let e = tran.dewoodify(&other).map(|v: Vec<u32>| v).unwrap_err();
    assert_eq!(e.msg, "expected \"nums\" here, but instead there was \"numz\"");
    assert_eq!((e.line, e.column), (2, 1));
}

#[test]
fn pair_scenario() {
    let p: (String, String) = PairBi(DefaultBiwooder, DefaultBiwooder).dewoodify(&branch(vec![leaf("a"), leaf("b")])).unwrap();
    assert_eq!(p, ("a".to_string(), "b".to_string()));
    assert_eq!(PairBi(DefaultBiwooder, DefaultBiwooder).woodify(&p).to_string(), "(a b)");
}

#[test]
fn pair_rejects_other_arities_and_leaves() {
    let tran = PairBi(DefaultBiwooder, DefaultBiwooder);
    for n in [0usize, 1, 3] {
        let w = branch((0..n).map(|_| leaf("k")).collect());
        let r: Result<(String, String), DewoodifyError> = tran.dewoodify(&w);
        assert_eq!(r.unwrap_err().msg, format!("expected a pair, two elements, but the branch here has {}", n));
    }
    let r: Result<(String, String), DewoodifyError> = tran.dewoodify(&leaf("k"));
    assert_eq!(r.unwrap_err().msg, "expected a pair, but the wood here is an leaf");
}

#[test]
fn tagged_map_scenario() {
    let tran = TaggedHashMapBi("ob", DefaultBiwooder, DefaultBiwooder);
    let hm: HashMap<String, String> = tran.dewoodify(&parse_termpose("ob a:b c:d d:e e:f").unwrap()).unwrap();
    assert_eq!(hm.len(), 4);
    assert_eq!(hm["a"], "b");
    assert_eq!(hm["d"], "e");
    let bad: Result<HashMap<String, String>, DewoodifyError> = tran.dewoodify(&parse_termpose("a:b c:d d:e e:f").unwrap());
    assert!(bad.is_err());
    let text = tran.woodify(&hm).to_string();
    assert!(text.starts_with("(ob "));
}

#[test]
fn map_keeps_the_last_of_equal_keys() {
    let hm: HashMap<String, String> = dewoodify(&parse_termpose("a:b a:c").unwrap()).unwrap();
    assert_eq!(hm.len(), 1);
    assert_eq!(hm["a"], "c");
}

#[test]
fn map_with_integer_keys_round_trips() {
    let mut m: HashMap<u32, bool> = HashMap::new();
    m.insert(1, true);
    m.insert(20, false);
    let tran = HashMapBi(DefaultWooder, DefaultWooder);
    let w = tran.woodify(&m);
    let back: HashMap<u32, bool> = HashMapBi(DefaultDewooder, DefaultDewooder).dewoodify(&w).unwrap();
    assert_eq!(back, m);
}

#[test]
fn text_map_round_trip_scenario() {
    let mut m: HashMap<String, String> = HashMap::new();
    m.insert("a".into(), "b".into());
    m.insert("c".into(), "d".into());
    let back: HashMap<String, String> = deserialize(&serialize(&m)).unwrap();
    assert_eq!(back, m);
}

#[test]
fn deserialize_tells_syntax_from_shape() {
    let syntax: Result<Vec<String>, WoodposeError> = deserialize("(a b");
    assert!(matches!(syntax, Err(WoodposeError::ParserError(_))));
    let shape: Result<bool, WoodposeError> = deserialize("perhaps");
    assert!(matches!(shape, Err(WoodposeError::DewoodifyError(_))));
}

#[test]
fn field_scanning_in_order() {
    let w = parse_termpose("point (x 1) (y 2) (z 3)").unwrap();
    let mut fs = FieldScanning::new(&w);
    assert_eq!(fs.li.len(), 3);
    assert_eq!(leaf_text(fs.seek("x").unwrap()), "1");
    assert_eq!(fs.eye, 0);
    assert_eq!(leaf_text(fs.seek("y").unwrap()), "2");
    assert_eq!(fs.eye, 1);
    assert_eq!(leaf_text(fs.seek("z").unwrap()), "3");
    assert_eq!(fs.eye, 2);
}

#[test]
fn field_scanning_out_of_order_and_absent() {
    let w = parse_termpose("point (x 1) (y 2) (z 3) (w)").unwrap();
    let mut fs = FieldScanning::new(&w);
    assert_eq!(leaf_text(fs.seek("z").unwrap()), "3");
    assert_eq!(leaf_text(fs.seek("x").unwrap()), "1");
    assert_eq!(fs.eye, 0);
    let e = fs.seek("q").unwrap_err();
    assert_eq!(e.msg, "could not find key \"q\"");
    assert_eq!(fs.eye, 0);
    let e = fs.seek("w").unwrap_err();
    assert_eq!(e.msg, "expected a subwood, but the wood has no tail");
    assert_eq!(fs.eye, 3);
}

#[test]
fn render_quotes_where_needed() {
    assert_eq!(leaf("plain").to_string(), "plain");
    assert_eq!(leaf("two words").to_string(), "\"two words\"");
    assert_eq!(leaf("").to_string(), "\"\"");
    assert_eq!(leaf("say \"hi\"").to_string(), "\"say \\\"hi\\\"\"");
    assert_eq!(branch(vec![]).to_string(), "()");
}

#[test]
fn parse_reads_pairs_and_quotes() {
    let w = parse_termpose("a:b:c").unwrap();
    assert_eq!(w.to_string(), "(a (b c))");
    let w = parse_termpose("f \"x y\" (g)").unwrap();
    assert_eq!(w.to_string(), "(f \"x y\" (g))");
    let q = parse_termpose("\"say \\\"hi\\\"\"").unwrap();
    assert_eq!(leaf_text(&q), "say \"hi\"");
    assert!(parse_termpose("(a").is_err());
    assert!(parse_termpose("a)").is_err());
    assert!(parse_termpose("a: b").is_err());
    assert!(parse_termpose("\"open").is_err());
}

#[test]
fn parse_records_positions() {
    let w = parse_termpose("a\n  (b c)").unwrap();
    match &w {
        Wood::Branch(b) => {
            assert_eq!(b.v[1].line_and_col(), (2, 3));
            assert_eq!(b.v[0].line_and_col(), (1, 1));
        }
        Wood::Leaf(_) => panic!("expected a branch"),
    }
    let e = parse_termpose("x\n (y").unwrap_err();
    assert_eq!((e.line, e.column), (2, 2));
}

#[test]
fn optional_box_and_composite() {
    let set: OptionalBoxBiwooder<DefaultBiwooder> = OptionalBoxBiwooder::new(Box::new(DefaultBiwooder));
    let v: bool = set.dewoodify(&leaf("yes")).unwrap();
    assert!(v);
    let unset: OptionalBoxBiwooder<DefaultBiwooder> = OptionalBoxBiwooder::empty();
    assert!(unset.0.is_none());
    let comp = CompositeBiwooder(DefaultWooder, DefaultDewooder);
    let w = comp.woodify(&17i32);
    let back: i32 = comp.dewoodify(&w).unwrap();
    assert_eq!(back, 17);
}

#[test]
fn closures_as_strategies() {
    let bi = biwooder_from_fns(
        |v: &u32| Wood::leaf(format!("n{}", v)),
        |w: &Wood| -> Result<u32, DewoodifyError> {
            match w {
                Wood::Leaf(l) => Ok(l.v.len() as u32),
                Wood::Branch(_) => Err(DewoodifyError::new(w, String::from("no"))),
            }
        },
    );
    let w = bi.woodify(&42);
    assert_eq!(leaf_text(&w), "n42");
    let back: u32 = bi.dewoodify(&w).unwrap();
    assert_eq!(back, 3);
}

#[test]
fn rendered_text_reads_back() {
    let texts = ["", "a b", "x\"y\\z", "line\nbreak", "(", ":", "\\n", "plain"];
    let tree = branch(vec![
        branch(texts.iter().map(|t| leaf(t)).collect()),
        branch(vec![]),
        leaf("tail"),
    ]);
    let text = tree.to_string();
    let read = parse_termpose(&text).unwrap();
    assert_eq!(read.to_string(), text);
    let strings: Vec<String> = texts.iter().map(|t| t.to_string()).collect();
    let back: Vec<String> = deserialize(&serialize(&strings)).unwrap();
    assert_eq!(back, strings);
}

#[test]
fn deserialize_empty_text_is_an_empty_branch() {
    let v: Vec<String> = deserialize("").unwrap();
    assert!(v.is_empty());
    let w = parse_termpose("").unwrap();
    assert_eq!(w.to_string(), "()");
}

#[test]
fn map_decode_keeps_nothing_but_the_pairs() {
    let w = parse_termpose("x:1 y:2").unwrap();
    let m: HashMap<String, u32> = HashMapBi(DefaultBiwooder, DefaultBiwooder).dewoodify(&w).unwrap();
    assert_eq!(m.len(), 2);
    assert_eq!(m["x"], 1);
    assert_eq!(m["y"], 2);
}
