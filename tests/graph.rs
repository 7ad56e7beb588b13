use idx_core::graph::{egprefix, egsuffix, ftprefix, ftsuffix, new, prefix, suffix, Dir, Graph, Id, Thing};
use idx_core::Error;

fn other_test() -> Thing {
    Thing { tb: "other".to_string(), id: Id::String("test".to_string()) }
}

#[test]
fn key() {
    let fk = other_test();
    let val = Graph::new("testns", "testdb", "testtb", Id::from_str("testid"), Dir::Out, &fk);
    let enc = Graph::encode(&val).unwrap();
    assert_eq!(enc, b"/*testns\0*testdb\0*testtb\x00~\0\0\0\x01testid\0\0\0\0\x01other\0\0\0\0\x01test\0");

    let dec = Graph::decode(&enc).unwrap();
    assert_eq!(val, dec);
}

#[test]
fn new_from_thing_matches_new_from_id() {
    let fk = other_test();
    let a = new("ns", "db", "tb", &Id::Number(-3), &Dir::In, &fk);
    let b = Graph::new_from_id("ns", "db", "tb", Id::Number(-3), Dir::In, "other", Id::String("test".to_string()));
    assert_eq!(a, b);
    let enc = a.encode().unwrap();
    assert_eq!(Graph::decode(&enc).unwrap(), b);
}

#[test]
fn numeric_ids_flip_the_sign_bit() {
    let fk = Thing { tb: "t".to_string(), id: Id::Number(1) };
    let g = Graph::new("n", "d", "t", Id::Number(-1), Dir::Both, &fk);
    let enc = g.encode().unwrap();
    let mut expected: Vec<u8> = b"/*n\0*d\0*t\0~\0\0\0\0".to_vec();
    expected.extend_from_slice(&[0x7f, 0xff, 0xff, 0xff, 0xff, 0xff, 0xff, 0xff]);
    expected.extend_from_slice(&[0, 0, 0, 2]);
    expected.extend_from_slice(b"t\0\0\0\0\0");
    expected.extend_from_slice(&[0x80, 0, 0, 0, 0, 0, 0, 1]);
    assert_eq!(enc, expected);
    assert_eq!(Graph::decode(&enc).unwrap(), g);
}

#[test]
fn prefixes_bound_the_keys_of_a_record() {
    let id = Id::String("testid".to_string());
    let p = prefix("testns", "testdb", "testtb", &id).unwrap();
    let s = suffix("testns", "testdb", "testtb", &id).unwrap();
    assert_eq!(p, b"/*testns\0*testdb\0*testtb\0~\0\0\0\x01testid\0\0");
    assert_eq!(s, b"/*testns\0*testdb\0*testtb\0~\0\0\0\x01testid\0\xff");
    let fk = other_test();
    let k = Graph::new("testns", "testdb", "testtb", Id::String("testid".to_string()), Dir::Out, &fk).encode().unwrap();
    assert!(p < k && k < s);

    let ep = egprefix("testns", "testdb", "testtb", &id, &Dir::Out).unwrap();
    let es = egsuffix("testns", "testdb", "testtb", &id, &Dir::Out).unwrap();
    assert_eq!(ep, b"/*testns\0*testdb\0*testtb\0~\0\0\0\x01testid\0\0\0\0\x01\0");
    assert_eq!(es, b"/*testns\0*testdb\0*testtb\0~\0\0\0\x01testid\0\0\0\0\x01\xff");
    assert!(ep < k && k < es);

    let fp = ftprefix("testns", "testdb", "testtb", &id, &Dir::Out, "other").unwrap();
    let fs = ftsuffix("testns", "testdb", "testtb", &id, &Dir::Out, "other").unwrap();
    assert_eq!(fp, b"/*testns\0*testdb\0*testtb\0~\0\0\0\x01testid\0\0\0\0\x01other\0\0");
    assert_eq!(fs, b"/*testns\0*testdb\0*testtb\0~\0\0\0\x01testid\0\0\0\0\x01other\0\xff");
    assert!(fp < k && k < fs);
}

#[test]
fn malformed_keys_are_refused() {
    assert_eq!(Graph::decode(b""), Err(Error::InvalidKey));
    assert_eq!(Graph::decode(b"/*ns"), Err(Error::InvalidKey));
    let fk = other_test();
    let mut enc = Graph::new("a", "b", "c", Id::Number(5), Dir::Out, &fk).encode().unwrap();
    enc.push(0);
    assert_eq!(Graph::decode(&enc), Err(Error::InvalidKey));
}
