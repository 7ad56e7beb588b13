use idx_core::docids::{DocIds, Resolved};
use idx_core::keys::IndexKeyBase;
use idx_core::kvs::{Transaction, TransactionType};
use idx_core::state::{encode, DecodeError};
use idx_core::Error;

const BTREE_ORDER: u32 = 7;

fn new_operation(ds: Transaction, tt: TransactionType) -> (Transaction, DocIds) {
    let tx = ds.reopen(tt);
    let d = DocIds::new(&tx, IndexKeyBase::new(b""), BTREE_ORDER).unwrap();
    (tx, d)
}

fn finish(mut tx: Transaction, mut d: DocIds) -> Transaction {
    d.finish(&mut tx).unwrap();
    tx
}

fn key(s: &str) -> Vec<u8> {
    s.as_bytes().to_vec()
}

#[test]
fn test_resolve_doc_id() {
    let ds = Transaction::new(TransactionType::Write);

    // Resolve a first doc key
    let (mut tx, mut d) = new_operation(ds, TransactionType::Write);
    let doc_id = d.resolve_doc_id(&mut tx, key("Foo")).unwrap();
    let ds = finish(tx, d);
    let (tx, d) = new_operation(ds, TransactionType::Read);
    assert_eq!(d.statistics().keys_count, 1);
    assert_eq!(d.get_doc_key(&tx, 0), Some(key("Foo")));
    assert_eq!(doc_id, Resolved::New(0));
    let ds = finish(tx, d);

    // Resolve the same doc key
    let (mut tx, mut d) = new_operation(ds, TransactionType::Write);
    let doc_id = d.resolve_doc_id(&mut tx, key("Foo")).unwrap();
    let ds = finish(tx, d);
    let (tx, d) = new_operation(ds, TransactionType::Read);
    assert_eq!(d.statistics().keys_count, 1);
    assert_eq!(d.get_doc_key(&tx, 0), Some(key("Foo")));
    assert_eq!(doc_id, Resolved::Existing(0));
    let ds = finish(tx, d);

    // Resolve another single doc key
    let (mut tx, mut d) = new_operation(ds, TransactionType::Write);
    let doc_id = d.resolve_doc_id(&mut tx, key("Bar")).unwrap();
    let ds = finish(tx, d);
    let (tx, d) = new_operation(ds, TransactionType::Read);
    assert_eq!(d.statistics().keys_count, 2);
    assert_eq!(d.get_doc_key(&tx, 1), Some(key("Bar")));
    assert_eq!(doc_id, Resolved::New(1));
    let ds = finish(tx, d);

    // Resolve another two existing doc keys and two new doc keys (interlaced)
    let (mut tx, mut d) = new_operation(ds, TransactionType::Write);
    assert_eq!(d.resolve_doc_id(&mut tx, key("Foo")).unwrap(), Resolved::Existing(0));
    assert_eq!(d.resolve_doc_id(&mut tx, key("Hello")).unwrap(), Resolved::New(2));
    assert_eq!(d.resolve_doc_id(&mut tx, key("Bar")).unwrap(), Resolved::Existing(1));
    assert_eq!(d.resolve_doc_id(&mut tx, key("World")).unwrap(), Resolved::New(3));
    let ds = finish(tx, d);
    let (tx, d) = new_operation(ds, TransactionType::Read);
    assert_eq!(d.statistics().keys_count, 4);
    let ds = finish(tx, d);

    let (mut tx, mut d) = new_operation(ds, TransactionType::Write);
    assert_eq!(d.resolve_doc_id(&mut tx, key("Foo")).unwrap(), Resolved::Existing(0));
    assert_eq!(d.resolve_doc_id(&mut tx, key("Bar")).unwrap(), Resolved::Existing(1));
    assert_eq!(d.resolve_doc_id(&mut tx, key("Hello")).unwrap(), Resolved::Existing(2));
    assert_eq!(d.resolve_doc_id(&mut tx, key("World")).unwrap(), Resolved::Existing(3));
    let ds = finish(tx, d);
    let (tx, d) = new_operation(ds, TransactionType::Read);
    assert_eq!(d.get_doc_key(&tx, 0), Some(key("Foo")));
    assert_eq!(d.get_doc_key(&tx, 1), Some(key("Bar")));
    assert_eq!(d.get_doc_key(&tx, 2), Some(key("Hello")));
    assert_eq!(d.get_doc_key(&tx, 3), Some(key("World")));
    assert_eq!(d.statistics().keys_count, 4);
}

#[test]
fn test_remove_doc() {
    let ds = Transaction::new(TransactionType::Write);

    // Create two docs
    let (mut tx, mut d) = new_operation(ds, TransactionType::Write);
    assert_eq!(d.resolve_doc_id(&mut tx, key("Foo")).unwrap(), Resolved::New(0));
    assert_eq!(d.resolve_doc_id(&mut tx, key("Bar")).unwrap(), Resolved::New(1));
    let ds = finish(tx, d);

    // Remove doc 1
    let (mut tx, mut d) = new_operation(ds, TransactionType::Write);
    assert_eq!(d.remove_doc(&mut tx, key("Dummy")).unwrap(), None);
    assert_eq!(d.remove_doc(&mut tx, key("Foo")).unwrap(), Some(0));
    let ds = finish(tx, d);

    // Check 'Foo' has been removed
    let (mut tx, mut d) = new_operation(ds, TransactionType::Write);
    assert_eq!(d.remove_doc(&mut tx, key("Foo")).unwrap(), None);
    let ds = finish(tx, d);

    // Insert a new doc - should take the available id 1
    let (mut tx, mut d) = new_operation(ds, TransactionType::Write);
    assert_eq!(d.resolve_doc_id(&mut tx, key("Hello")).unwrap(), Resolved::New(0));
    let ds = finish(tx, d);

    // Remove doc 2
    let (mut tx, mut d) = new_operation(ds, TransactionType::Write);
    assert_eq!(d.remove_doc(&mut tx, key("Dummy")).unwrap(), None);
    assert_eq!(d.remove_doc(&mut tx, key("Bar")).unwrap(), Some(1));
    let ds = finish(tx, d);

    // Check 'Bar' has been removed
    let (mut tx, mut d) = new_operation(ds, TransactionType::Write);
    assert_eq!(d.remove_doc(&mut tx, key("Foo")).unwrap(), None);
    let ds = finish(tx, d);

    // Insert a new doc - should take the available id 2
    let (mut tx, mut d) = new_operation(ds, TransactionType::Write);
    assert_eq!(d.resolve_doc_id(&mut tx, key("World")).unwrap(), Resolved::New(1));
    finish(tx, d);
}

#[test]
fn resolve_twice_gives_existing_same_id() {
    let (mut tx, mut d) = new_operation(Transaction::new(TransactionType::Write), TransactionType::Write);
    let first = d.resolve_doc_id(&mut tx, key("Foo")).unwrap();
    d.resolve_doc_id(&mut tx, key("Other")).unwrap();
    let second = d.resolve_doc_id(&mut tx, key("Foo")).unwrap();
    assert_eq!(first, Resolved::New(0));
    assert_eq!(second, Resolved::Existing(0));
    assert!(second.was_existing());
    assert!(!first.was_existing());
    assert_eq!(*first.doc_id(), *second.doc_id());
}

#[test]
fn distinct_keys_get_distinct_ids() {
    let (mut tx, mut d) = new_operation(Transaction::new(TransactionType::Write), TransactionType::Write);
    let mut ids = Vec::new();
    for k in ["a", "b", "c", "d", "e"] {
        ids.push(*d.resolve_doc_id(&mut tx, key(k)).unwrap().doc_id());
    }
    for i in 0..ids.len() {
        for j in 0..ids.len() {
            if i != j {
                assert_ne!(ids[i], ids[j]);
            }
        }
    }
}

#[test]
fn smallest_free_id_is_reused_first() {
    let (mut tx, mut d) = new_operation(Transaction::new(TransactionType::Write), TransactionType::Write);
    assert_eq!(d.resolve_doc_id(&mut tx, key("Foo")).unwrap(), Resolved::New(0));
    assert_eq!(d.resolve_doc_id(&mut tx, key("Bar")).unwrap(), Resolved::New(1));
    assert_eq!(d.remove_doc(&mut tx, key("Foo")).unwrap(), Some(0));
    assert_eq!(d.resolve_doc_id(&mut tx, key("Hello")).unwrap(), Resolved::New(0));
    assert_eq!(d.resolve_doc_id(&mut tx, key("World")).unwrap(), Resolved::New(2));
}

#[test]
fn reverse_lookup_follows_removal() {
    let (mut tx, mut d) = new_operation(Transaction::new(TransactionType::Write), TransactionType::Write);
    let id = *d.resolve_doc_id(&mut tx, key("Foo")).unwrap().doc_id();
    assert_eq!(d.get_doc_key(&tx, id), Some(key("Foo")));
    assert_eq!(d.get_doc_id(&tx, key("Foo")), Some(id));
    assert_eq!(d.remove_doc(&mut tx, key("Foo")).unwrap(), Some(id));
    assert_eq!(d.get_doc_key(&tx, id), None);
    assert_eq!(d.get_doc_id(&tx, key("Foo")), None);
}

#[test]
fn reopen_after_finish_keeps_lookups() {
    let (mut tx, mut d) = new_operation(Transaction::new(TransactionType::Write), TransactionType::Write);
    for k in ["a", "b", "c"] {
        d.resolve_doc_id(&mut tx, key(k)).unwrap();
    }
    d.remove_doc(&mut tx, key("b")).unwrap();
    let ds = finish(tx, d);
    let (mut tx, mut d) = new_operation(ds, TransactionType::Write);
    assert_eq!(d.get_doc_id(&tx, key("a")), Some(0));
    assert_eq!(d.get_doc_id(&tx, key("b")), None);
    assert_eq!(d.get_doc_id(&tx, key("c")), Some(2));
    assert_eq!(d.statistics().keys_count, 2);
    // the freed id survived the round trip
    assert_eq!(d.resolve_doc_id(&mut tx, key("d")).unwrap(), Resolved::New(1));
    assert_eq!(d.resolve_doc_id(&mut tx, key("e")).unwrap(), Resolved::New(3));
}

#[test]
fn read_transaction_refuses_new_ids() {
    let (mut tx, mut d) = new_operation(Transaction::new(TransactionType::Write), TransactionType::Read);
    assert_eq!(d.resolve_doc_id(&mut tx, key("Foo")), Err(Error::TxReadonly));
    assert_eq!(d.get_doc_id(&tx, key("Foo")), None);
    assert_eq!(d.remove_doc(&mut tx, key("Foo")), Ok(None));
    d.finish(&mut tx).unwrap();
}

#[test]
fn undecodable_state_is_refused() {
    let mut tx = Transaction::new(TransactionType::Write);
    let ikb = IndexKeyBase::new(b"ix");
    tx.set(ikb.new_bd_key(), vec![9, 9, 9]).unwrap();
    assert!(matches!(DocIds::new(&tx, ikb, BTREE_ORDER), Err(Error::Revision(DecodeError::UnknownLayout(9)))));
}

#[test]
fn exhausted_counter_is_reported() {
    let mut tx = Transaction::new(TransactionType::Write);
    let ikb = IndexKeyBase::new(b"ix");
    tx.set(ikb.new_bd_key(), encode(BTREE_ORDER, 0, u64::MAX, &vec![])).unwrap();
    let mut d = DocIds::new(&tx, IndexKeyBase::new(b"ix"), BTREE_ORDER).unwrap();
    assert_eq!(d.resolve_doc_id(&mut tx, key("Foo")), Err(Error::IdsExhausted));
}

#[test]
fn finish_writes_only_after_changes() {
    let tx = Transaction::new(TransactionType::Write);
    let (mut tx, mut d) = new_operation(tx, TransactionType::Write);
    let ikb = IndexKeyBase::new(b"");
    d.finish(&mut tx).unwrap();
    assert_eq!(tx.get(&ikb.new_bd_key()), None);
    d.resolve_doc_id(&mut tx, key("Foo")).unwrap();
    d.finish(&mut tx).unwrap();
    let stored = tx.get(&ikb.new_bd_key()).unwrap();
    // current layout, generation 1, next id 1, no free ids
    assert_eq!(stored, encode(BTREE_ORDER, 1, 1, &vec![]));
}

#[test]
fn free_ids_beyond_the_counter_are_refused() {
    let mut tx = Transaction::new(TransactionType::Write);
    let ikb = IndexKeyBase::new(b"ix");
    tx.set(ikb.new_bd_key(), encode(BTREE_ORDER, 0, 3, &vec![1, 5])).unwrap();
    assert!(matches!(
        DocIds::new(&tx, IndexKeyBase::new(b"ix"), BTREE_ORDER),
        Err(Error::Revision(DecodeError::FreeIdBeyondCounter))
    ));
}

#[test]
fn entries_of_an_unfinished_scope_are_not_seen() {
    // a scope resolves a key and commits without finishing
    let (mut tx, mut d) = new_operation(Transaction::new(TransactionType::Write), TransactionType::Write);
    assert_eq!(d.resolve_doc_id(&mut tx, key("Foo")).unwrap(), Resolved::New(0));
    // the next scope finds no state record: a fresh index that holds no key
    let (mut tx, mut d) = new_operation(tx, TransactionType::Write);
    assert_eq!(d.get_doc_id(&tx, key("Foo")), None);
    assert_eq!(d.resolve_doc_id(&mut tx, key("Bar")).unwrap(), Resolved::New(0));
    assert_eq!(d.get_doc_id(&tx, key("Foo")), None);
    assert_eq!(d.resolve_doc_id(&mut tx, key("Foo")).unwrap(), Resolved::New(1));
    assert_eq!(d.get_doc_key(&tx, 0), Some(key("Bar")));
    assert_eq!(d.get_doc_key(&tx, 1), Some(key("Foo")));
}

#[test]
fn free_ids_are_saved_as_runs() {
    let (mut tx, mut d) = new_operation(Transaction::new(TransactionType::Write), TransactionType::Write);
    for k in ["a", "b", "c", "d", "e", "f"] {
        d.resolve_doc_id(&mut tx, key(k)).unwrap();
    }
    for k in ["b", "c", "d", "f"] {
        d.remove_doc(&mut tx, key(k)).unwrap();
    }
    d.finish(&mut tx).unwrap();
    let ikb = IndexKeyBase::new(b"");
    assert_eq!(tx.get(&ikb.new_bd_key()), Some(encode(BTREE_ORDER, 1, 6, &vec![1, 3, 5, 5])));
    let (mut tx, mut d) = new_operation(tx, TransactionType::Write);
    assert_eq!(d.statistics().keys_count, 2);
    assert_eq!(d.resolve_doc_id(&mut tx, key("x")).unwrap(), Resolved::New(1));
    assert_eq!(d.resolve_doc_id(&mut tx, key("y")).unwrap(), Resolved::New(2));
    assert_eq!(d.get_doc_id(&tx, key("a")), Some(0));
    assert_eq!(d.get_doc_id(&tx, key("e")), Some(4));
}
