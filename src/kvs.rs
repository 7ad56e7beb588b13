//! An in-memory key-value transaction: the backing store that the
//! document-id index reads from and writes to.
use vstd::prelude::*;

use crate::Error;

verus! {

#[derive(Clone, Copy, Debug, PartialEq, Eq, Structural)]
pub enum TransactionType {
    Read,
    Write,
}

/// Byte-wise equality of two slices.
pub fn bytes_eq(a: &[u8], b: &[u8]) -> (r: bool)
    ensures
        r == (a@ == b@),
{
    if a.len() != b.len() {
        return false;
    }
    let mut i: usize = 0;
    while i < a.len()
        invariant
            a@.len() == b@.len(),
            i <= a@.len(),
            forall|j: int| 0 <= j < i ==> a@[j] == b@[j],
        decreases a@.len() - i,
    {
        if a[i] != b[i] {
            return false;
        }
        i = i + 1;
    }
    assert(a@ =~= b@);
    true
}

/// A fresh vector holding the bytes of `a`.
pub fn copy_bytes(a: &[u8]) -> (r: Vec<u8>)
    ensures
        r@ == a@,
{
    let mut r: Vec<u8> = Vec::new();
    let mut i: usize = 0;
    while i < a.len()
        invariant
            i <= a@.len(),
            r@ == a@.subrange(0, i as int),
        decreases a@.len() - i,
    {
        r.push(a[i]);
        i = i + 1;
        assert(r@ =~= a@.subrange(0, i as int));
    }
    assert(r@ =~= a@);
    r
}

/// A transaction over an in-memory key-value space. Writes are refused in a
/// read transaction.
pub struct Transaction {
    tt: TransactionType,
    entries: Vec<(Vec<u8>, Vec<u8>)>,
}

impl View for Transaction {
    type V = Map<Seq<u8>, Seq<u8>>;

    closed spec fn view(&self) -> Map<Seq<u8>, Seq<u8>> {
        Map::new(
            |k: Seq<u8>| exists|i: int| 0 <= i < self.entries@.len() && #[trigger] self.entries@[i].0@ == k,
            |k: Seq<u8>|
                self.entries@[choose|i: int| 0 <= i < self.entries@.len() && #[trigger] self.entries@[i].0@ == k].1@,
        )
    }
}

impl Transaction {
    /// Each key is stored once.
    pub closed spec fn wf(&self) -> bool {
        forall|i: int, j: int|
            0 <= i < self.entries@.len() && 0 <= j < self.entries@.len() && i != j
                ==> #[trigger] self.entries@[i].0@ != #[trigger] self.entries@[j].0@
    }

    pub closed spec fn kind(&self) -> TransactionType {
        self.tt
    }

    proof fn lemma_at(&self, i: int)
        requires
            self.wf(),
            0 <= i < self.entries@.len(),
        ensures
            self@.contains_key(self.entries@[i].0@),
            self@[self.entries@[i].0@] == self.entries@[i].1@,
    {
        let k = self.entries@[i].0@;
        assert(self.entries@[i].0@ == k);
        let j = choose|j: int| 0 <= j < self.entries@.len() && #[trigger] self.entries@[j].0@ == k;
        assert(j == i);
    }

    /// An empty key space.
    pub fn new(tt: TransactionType) -> (r: Transaction)
        ensures
            r.wf(),
            r@ == Map::<Seq<u8>, Seq<u8>>::empty(),
            r.kind() == tt,
    {
        let r = Transaction { tt, entries: Vec::new() };
        assert(r@ =~= Map::<Seq<u8>, Seq<u8>>::empty());
        r
    }

    /// A transaction of kind `tt` over the same key space.
    pub fn reopen(self, tt: TransactionType) -> (r: Transaction)
        ensures
            r@ == self@,
            r.wf() == self.wf(),
            r.kind() == tt,
    {
        let r = Transaction { tt, entries: self.entries };
        assert(r@ =~= self@);
        r
    }

    pub fn transaction_type(&self) -> (r: TransactionType)
        ensures
            r == self.kind(),
    {
        self.tt
    }

    fn find(&self, k: &[u8]) -> (r: Option<usize>)
        requires
            self.wf(),
        ensures
            match r {
                Some(i) => i < self.entries@.len() && self.entries@[i as int].0@ == k@,
                None => !self@.contains_key(k@),
            },
    {
        let mut i: usize = 0;
        while i < self.entries.len()
            invariant
                i <= self.entries@.len(),
                forall|j: int| 0 <= j < i ==> #[trigger] self.entries@[j].0@ != k@,
            decreases self.entries@.len() - i,
        {
            if bytes_eq(self.entries[i].0.as_slice(), k) {
                return Some(i);
            }
            i = i + 1;
        }
        None
    }

    /// Reads the value stored under `k`.
    pub fn get(&self, k: &[u8]) -> (r: Option<Vec<u8>>)
        requires
            self.wf(),
        ensures
            match r {
                Some(v) => self@.contains_key(k@) && v@ == self@[k@],
                None => !self@.contains_key(k@),
            },
    {
        match self.find(k) {
            Some(i) => {
                proof {
                    self.lemma_at(i as int);
                }
                Some(copy_bytes(self.entries[i].1.as_slice()))
            },
            None => None,
        }
    }

    /// Stores `v` under `k`, replacing any earlier value.
    pub fn set(&mut self, k: Vec<u8>, v: Vec<u8>) -> (r: Result<(), Error>)
        requires
            old(self).wf(),
        ensures
            final(self).wf(),
            final(self).kind() == old(self).kind(),
            old(self).kind() == TransactionType::Read ==> r == Err::<(), Error>(Error::TxReadonly) && final(self)@ == old(self)@,
            old(self).kind() == TransactionType::Write ==> r is Ok && final(self)@ == old(self)@.insert(k@, v@),
    {
        if self.tt == TransactionType::Read {
            return Err(Error::TxReadonly);
        }
        let ghost old_self = *self;
        let ghost kv = k@;
        let ghost vv = v@;
        match self.find(k.as_slice()) {
            Some(i) => {
                self.entries.set(i, (k, v));
                assert(self.wf()) by {
                    assert forall|a: int, b: int|
                        0 <= a < self.entries@.len() && 0 <= b < self.entries@.len() && a != b
                            implies #[trigger] self.entries@[a].0@ != #[trigger] self.entries@[b].0@ by {
                        if a != i && b != i {
                            assert(old_self.entries@[a].0@ != old_self.entries@[b].0@);
                        } else if a == i {
                            assert(old_self.entries@[i as int].0@ != old_self.entries@[b].0@);
                        } else {
                            assert(old_self.entries@[a].0@ != old_self.entries@[i as int].0@);
                        }
                    }
                }
                assert(self@ =~= old_self@.insert(kv, vv)) by {
                    assert forall|q: Seq<u8>| #[trigger] self@.contains_key(q) == old_self@.insert(kv, vv).contains_key(q) by {
                        if q != kv && old_self@.contains_key(q) {
                            let j = choose|j: int| 0 <= j < old_self.entries@.len() && #[trigger] old_self.entries@[j].0@ == q;
                            assert(self.entries@[j].0@ == q);
                        }
                        if self@.contains_key(q) && q != kv {
                            let j = choose|j: int| 0 <= j < self.entries@.len() && #[trigger] self.entries@[j].0@ == q;
                            assert(old_self.entries@[j].0@ == q);
                        }
                        if q == kv {
                            assert(self.entries@[i as int].0@ == q);
                        }
                    }
                    assert forall|q: Seq<u8>| #[trigger] self@.contains_key(q) implies self@[q] == old_self@.insert(kv, vv)[q] by {
                        let j = choose|j: int| 0 <= j < self.entries@.len() && #[trigger] self.entries@[j].0@ == q;
                        self.lemma_at(j);
                        if j != i {
                            old_self.lemma_at(j);
                        }
                    }
                }
            },
            None => {
                self.entries.push((k, v));
                let n = self.entries.len();
                assert(self.wf()) by {
                    assert forall|a: int, b: int|
                        0 <= a < self.entries@.len() && 0 <= b < self.entries@.len() && a != b
                            implies #[trigger] self.entries@[a].0@ != #[trigger] self.entries@[b].0@ by {
                        if a < n - 1 && b < n - 1 {
                            assert(old_self.entries@[a].0@ != old_self.entries@[b].0@);
                        } else if a == n - 1 {
                            assert(old_self.entries@[b].0@ != kv);
                        } else {
                            assert(old_self.entries@[a].0@ != kv);
                        }
                    }
                }
                assert(self@ =~= old_self@.insert(kv, vv)) by {
                    assert forall|q: Seq<u8>| #[trigger] self@.contains_key(q) == old_self@.insert(kv, vv).contains_key(q) by {
                        if q != kv && old_self@.contains_key(q) {
                            let j = choose|j: int| 0 <= j < old_self.entries@.len() && #[trigger] old_self.entries@[j].0@ == q;
                            assert(self.entries@[j].0@ == q);
                        }
                        if self@.contains_key(q) && q != kv {
                            let j = choose|j: int| 0 <= j < self.entries@.len() && #[trigger] self.entries@[j].0@ == q;
                            assert(old_self.entries@[j].0@ == q);
                        }
                        if q == kv {
                            assert(self.entries@[n - 1].0@ == q);
                        }
                    }
                    assert forall|q: Seq<u8>| #[trigger] self@.contains_key(q) implies self@[q] == old_self@.insert(kv, vv)[q] by {
                        let j = choose|j: int| 0 <= j < self.entries@.len() && #[trigger] self.entries@[j].0@ == q;
                        self.lemma_at(j);
                        if j != n - 1 {
                            old_self.lemma_at(j);
                        }
                    }
                }
            },
        }
        Ok(())
    }

    /// Deletes the value stored under `k`, if any.
    pub fn del(&mut self, k: &[u8]) -> (r: Result<(), Error>)
        requires
            old(self).wf(),
        ensures
            final(self).wf(),
            final(self).kind() == old(self).kind(),
            old(self).kind() == TransactionType::Read ==> r == Err::<(), Error>(Error::TxReadonly) && final(self)@ == old(self)@,
            old(self).kind() == TransactionType::Write ==> r is Ok && final(self)@ == old(self)@.remove(k@),
    {
        if self.tt == TransactionType::Read {
            return Err(Error::TxReadonly);
        }
        let ghost old_self = *self;
        match self.find(k) {
            Some(i) => {
                self.entries.remove(i);
                assert(self.wf()) by {
                    assert forall|a: int, b: int|
                        0 <= a < self.entries@.len() && 0 <= b < self.entries@.len() && a != b
                            implies #[trigger] self.entries@[a].0@ != #[trigger] self.entries@[b].0@ by {
                        let oa = if a < i { a } else { a + 1 };
                        let ob = if b < i { b } else { b + 1 };
                        assert(self.entries@[a] == old_self.entries@[oa]);
                        assert(self.entries@[b] == old_self.entries@[ob]);
                        assert(old_self.entries@[oa].0@ != old_self.entries@[ob].0@);
                    }
                }
                assert(self@ =~= old_self@.remove(k@)) by {
                    assert forall|q: Seq<u8>| #[trigger] self@.contains_key(q) == old_self@.remove(k@).contains_key(q) by {
                        if q != k@ && old_self@.contains_key(q) {
                            let j = choose|j: int| 0 <= j < old_self.entries@.len() && #[trigger] old_self.entries@[j].0@ == q;
                            assert(j != i);
                            let nj = if j < i { j } else { j - 1 };
                            assert(self.entries@[nj] == old_self.entries@[j]);
                        }
                        if self@.contains_key(q) {
                            let j = choose|j: int| 0 <= j < self.entries@.len() && #[trigger] self.entries@[j].0@ == q;
                            let oj = if j < i { j } else { j + 1 };
                            assert(self.entries@[j] == old_self.entries@[oj]);
                            assert(oj != i);
                            assert(old_self.entries@[oj].0@ != old_self.entries@[i as int].0@);
                        }
                    }
                    assert forall|q: Seq<u8>| #[trigger] self@.contains_key(q) implies self@[q] == old_self@.remove(k@)[q] by {
                        let j = choose|j: int| 0 <= j < self.entries@.len() && #[trigger] self.entries@[j].0@ == q;
                        let oj = if j < i { j } else { j + 1 };
                        assert(self.entries@[j] == old_self.entries@[oj]);
                        self.lemma_at(j);
                        old_self.lemma_at(oj);
                    }
                }
            },
            None => {
                assert(self@ =~= old_self@.remove(k@));
            },
        }
        Ok(())
    }
}

} // verus!
