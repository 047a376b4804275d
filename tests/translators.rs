use std::collections::HashMap;
use termpose::{
    deserialize, dewoodify, parse_termpose, serialize, DefaultBiwooder, DewoodifyError, Dewooder,
    SequenceTran, TaggedHashMapBi, Wood, Wooder,
};

fn leaf(s: &str) -> Wood {
    Wood::leaf(String::from(s))
}

#[test]
fn idempotent_int() {
    assert!(90isize == DefaultBiwooder.dewoodify(&DefaultBiwooder.woodify(&90isize)).unwrap());
}

#[test]
fn tricky_branch_parse() {
    let brancho = Wood::branch(vec![
        Wood::branch(vec![leaf("tricky"), leaf("branch")]),
        Wood::branch(vec![leaf("parse")]),
    ]);
    let tranner: SequenceTran<SequenceTran<DefaultBiwooder>> = SequenceTran(SequenceTran(DefaultBiwooder));
    let lv: Vec<Vec<String>> = tranner.dewoodify(&brancho).unwrap();
    assert!(lv.len() == 2);
    assert!(lv[0].len() == 2);
    assert!(lv[0][0].len() == 6);
    assert!(tranner.woodify(&lv).to_string() == "((tricky branch) (parse))");
}

#[test]
fn do_hash_map() {
    let t = parse_termpose("a:b c:d d:e e:f").unwrap();
    let bt = TaggedHashMapBi("ob", DefaultBiwooder, DefaultBiwooder);
    let utr: Result<HashMap<String, String>, DewoodifyError> = bt.dewoodify(&t);
    assert!(utr.is_err());
    let tt = parse_termpose("ob a:b c:d d:e e:f").unwrap();
    let hm: HashMap<String, String> = TaggedHashMapBi("ob", DefaultBiwooder, DefaultBiwooder).dewoodify(&tt).unwrap();
    assert!(hm.get("a").unwrap() == "b");
    assert!(hm.get("d").unwrap() == "e");
}

fn give_hm() -> HashMap<String, String> {
    [("a".into(), "b".into()), ("c".into(), "d".into())].iter().cloned().collect()
}

#[test]
fn implicit_biwooders() {
    let t = parse_termpose("a:b c:d").unwrap();
    let exh = give_hm();
    let exu: HashMap<String, String> = dewoodify(&t).unwrap();
    assert!(exu == exh)
}

const SPECIAL_SEQ_BIWOODER: SequenceTran<DefaultBiwooder> = SequenceTran(DefaultBiwooder);

#[test]
fn static_biwooder() {
    let r: Result<Wood, _> = parse_termpose("c c c c c a");
    let v: Vec<char> = SPECIAL_SEQ_BIWOODER.dewoodify(&r.unwrap()).unwrap();
    assert_eq!(v.len(), 6usize);
    assert_eq!(v[5], 'a');
}

#[test]
fn automatic_deserialize() {
    let hm: HashMap<String, String> = deserialize("a:b c:d").unwrap();
    assert!(hm == give_hm());
}

#[test]
fn automatic_serialize() {
    let hm = give_hm();
    let cln = deserialize(&serialize(&hm)).unwrap();
    assert!(hm == cln);
}
