//! The document-id index: a persistent bijection between document keys and
//! dense 64-bit ids, with released ids reused smallest first.
use vstd::prelude::*;

use roaring::RoaringTreemap;

use crate::freeids::{treemap_ids, treemap_insert_run, treemap_values};
use crate::keys::{
    be8, from_be8, fwd_key, lemma_be8_round_trip, lemma_keys_distinct, push_be8, read_be8, rev_key, state_key,
    IndexKeyBase,
};
use crate::kvs::{bytes_eq, copy_bytes, Transaction, TransactionType};
use crate::state::{current_error, decode, decode_state, encode, encode_state, lemma_state_round_trip, DecodeError, StateRecord};
use crate::{DocId, Error};

verus! {

/// What resolving a document key gave: a freshly allocated id, or the id
/// the key already had.
#[derive(Clone, Copy, Debug, PartialEq, Eq, Structural)]
pub enum Resolved {
    New(DocId),
    Existing(DocId),
}

impl Resolved {
    pub open spec fn id(&self) -> DocId {
        match self {
            Resolved::New(d) => *d,
            Resolved::Existing(d) => *d,
        }
    }

    pub fn doc_id(&self) -> (r: &DocId)
        ensures
            *r == self.id(),
    {
        match self {
            Resolved::New(doc_id) => doc_id,
            Resolved::Existing(doc_id) => doc_id,
        }
    }

    pub fn was_existing(&self) -> (r: bool)
        ensures
            r == (self matches Resolved::Existing(_)),
    {
        match self {
            Resolved::New(_) => false,
            Resolved::Existing(_) => true,
        }
    }
}

/// Aggregate counts of an index.
#[derive(Clone, Copy, Debug, PartialEq, Eq, Structural)]
pub struct Statistics {
    pub keys_count: u64,
}

/// The abstract state of a document-id index.
pub struct DocIdsView {
    pub prefix: Seq<u8>,
    pub order: u32,
    pub generation: u64,
    pub free: Set<u64>,
    pub next: u64,
    /// Whether anything changed since the state was loaded or written.
    pub dirty: bool,
}

/// The contents of a key-value space.
pub type Store = Map<Seq<u8>, Seq<u8>>;

pub open spec fn lookup(m: Store, k: Seq<u8>) -> Option<Seq<u8>> {
    if m.contains_key(k) {
        Some(m[k])
    } else {
        None
    }
}

/// The id that the forward entry of `doc` names, if it names one.
pub open spec fn raw_id(m: Store, p: Seq<u8>, doc: Seq<u8>) -> Option<u64> {
    match lookup(m, fwd_key(p, doc)) {
        Some(v) => if v.len() == 8 {
            Some(from_be8(v))
        } else {
            None
        },
        None => None,
    }
}

/// The id that `doc` holds: its forward entry names an id below the
/// counter that is not free, and the reverse entry of that id names `doc`
/// back. Entries left in the store by a scope that never finished fail
/// this test, so an index without a state record holds no key.
pub open spec fn held_id(v: DocIdsView, m: Store, doc: Seq<u8>) -> Option<u64> {
    match raw_id(m, v.prefix, doc) {
        Some(id) => if id < v.next && !v.free.contains(id) && stored_key(m, v.prefix, id) == Some(doc) {
            Some(id)
        } else {
            None
        },
        None => None,
    }
}

/// The document key that the reverse entry of `id` holds.
pub open spec fn stored_key(m: Store, p: Seq<u8>, id: u64) -> Option<Seq<u8>> {
    lookup(m, rev_key(p, id))
}

pub open spec fn min_of(s: Set<u64>) -> u64 {
    choose|x: u64| s.contains(x) && forall|y: u64| #[trigger] s.contains(y) ==> x <= y
}

pub open spec fn can_allocate(v: DocIdsView) -> bool {
    v.free != Set::<u64>::empty() || v.next < u64::MAX
}

/// The id handed out next: the smallest free one, else the counter.
pub open spec fn allocate(v: DocIdsView) -> (u64, DocIdsView) {
    if v.free != Set::<u64>::empty() {
        (min_of(v.free), DocIdsView { free: v.free.remove(min_of(v.free)), ..v })
    } else {
        (v.next, DocIdsView { next: (v.next + 1) as u64, ..v })
    }
}

/// Resolving `doc` in a transaction that may write (`write`) or not.
pub open spec fn resolve_spec(v: DocIdsView, m: Store, write: bool, doc: Seq<u8>) -> (DocIdsView, Store, Result<Resolved, Error>) {
    match held_id(v, m, doc) {
        Some(id) => (v, m, Ok(Resolved::Existing(id))),
        None => if !can_allocate(v) {
            (v, m, Err(Error::IdsExhausted))
        } else if !write {
            (v, m, Err(Error::TxReadonly))
        } else {
            let (id, v2) = allocate(v);
            (
                DocIdsView { dirty: true, ..v2 },
                m.insert(rev_key(v.prefix, id), doc).insert(fwd_key(v.prefix, doc), be8(id)),
                Ok(Resolved::New(id)),
            )
        },
    }
}

/// Removing `doc`.
pub open spec fn remove_spec(v: DocIdsView, m: Store, write: bool, doc: Seq<u8>) -> (DocIdsView, Store, Result<Option<u64>, Error>) {
    match held_id(v, m, doc) {
        None => (v, m, Ok(None)),
        Some(id) => if !write {
            (v, m, Err(Error::TxReadonly))
        } else {
            (
                DocIdsView { free: v.free.insert(id), dirty: true, ..v },
                m.remove(fwd_key(v.prefix, doc)).remove(rev_key(v.prefix, id)),
                Ok(Some(id)),
            )
        },
    }
}

pub open spec fn next_generation(g: u64) -> u64 {
    if g < u64::MAX {
        (g + 1) as u64
    } else {
        g
    }
}

/// Finishing, with the free ids written out as the runs `ids`.
pub open spec fn finish_spec(v: DocIdsView, m: Store, write: bool, ids: Seq<u64>) -> (DocIdsView, Store, Result<(), Error>) {
    if !v.dirty {
        (v, m, Ok(()))
    } else if !write {
        (v, m, Err(Error::TxReadonly))
    } else {
        let g = next_generation(v.generation);
        (
            DocIdsView { generation: g, dirty: false, ..v },
            m.insert(state_key(v.prefix), encode_state(StateRecord { order: v.order, generation: g, next: v.next, free: ids })),
            Ok(()),
        )
    }
}

/// Whether `x` lies in run `i` of `w`: word `2i` is the first id of the
/// run and word `2i + 1` its last.
pub open spec fn in_run(w: Seq<u64>, i: int, x: u64) -> bool {
    0 <= i && 2 * i + 1 < w.len() && w[2 * i] <= x && x <= w[2 * i + 1]
}

/// The ids that the runs in `w` cover.
pub open spec fn runs_set(w: Seq<u64>) -> Set<u64> {
    Set::new(|x: u64| exists|i: int| #[trigger] in_run(w, i, x))
}

pub open spec fn run_last(w: Seq<u64>, i: int) -> u64 {
    w[2 * i + 1]
}

/// `w` is a whole number of runs, none of them empty, that cover exactly
/// `s`.
pub open spec fn covers(w: Seq<u64>, s: Set<u64>) -> bool {
    &&& w.len() % 2 == 0
    &&& runs_set(w) == s
    &&& forall|i: int| 0 <= i && 2 * i + 1 < w.len() ==> w[2 * i] <= #[trigger] run_last(w, i)
}

/// Every run of `w` ends below `next`.
pub open spec fn runs_below(w: Seq<u64>, next: u64) -> bool {
    forall|i: int| 0 <= i && 2 * i + 1 < w.len() ==> #[trigger] run_last(w, i) < next
}

pub open spec fn view_of(p: Seq<u8>, s: StateRecord) -> DocIdsView {
    DocIdsView { prefix: p, order: s.order, generation: s.generation, free: runs_set(s.free), next: s.next, dirty: false }
}

/// Opening the index under prefix `p` on the store `m`. A record that no
/// layout reads gives the reason the current layout refused it.
pub open spec fn open_spec(m: Store, p: Seq<u8>, default_order: u32) -> Result<DocIdsView, Error> {
    match lookup(m, state_key(p)) {
        None => Ok(DocIdsView { prefix: p, order: default_order, generation: 0, free: Set::empty(), next: 0, dirty: false }),
        Some(b) => match decode_state(b) {
            Some(s) => if runs_below(s.free, s.next) {
                Ok(view_of(p, s))
            } else {
                Err(Error::Revision(DecodeError::FreeIdBeyondCounter))
            },
            None => Err(Error::Revision(current_error(b))),
        },
    }
}

pub open spec fn keys_count_of(v: DocIdsView) -> u64 {
    if v.free.len() <= v.next {
        (v.next - v.free.len()) as u64
    } else {
        0
    }
}


/// The invariant of the index against its store: every free id lies below
/// the counter, and every id below the counter that is not free is held by
/// the key that its reverse entry names.
pub open spec fn consistent(v: DocIdsView, m: Store) -> bool {
    &&& forall|id: u64| #[trigger] v.free.contains(id) ==> id < v.next
    &&& forall|id: u64| id < v.next && !v.free.contains(id) ==> #[trigger] held_by_key(v, m, id)
}

/// Every free id lies below the counter.
pub open spec fn free_below(v: DocIdsView) -> bool {
    forall|id: u64| #[trigger] v.free.contains(id) ==> id < v.next
}

pub open spec fn held_by_key(v: DocIdsView, m: Store, id: u64) -> bool {
    stored_key(m, v.prefix, id) is Some && held_id(v, m, stored_key(m, v.prefix, id).unwrap()) == Some(id)
}

/// A change to the index: resolving or removing a key.
pub enum Op {
    Resolve(Seq<u8>),
    Remove(Seq<u8>),
}

pub open spec fn step(v: DocIdsView, m: Store, write: bool, op: Op) -> (DocIdsView, Store) {
    match op {
        Op::Resolve(k) => {
            let (v1, m1, _r) = resolve_spec(v, m, write, k);
            (v1, m1)
        },
        Op::Remove(k) => {
            let (v1, m1, _r) = remove_spec(v, m, write, k);
            (v1, m1)
        },
    }
}

/// The index and store after the changes `ops`, in order.
pub open spec fn apply(v: DocIdsView, m: Store, write: bool, ops: Seq<Op>) -> (DocIdsView, Store)
    decreases ops.len(),
{
    if ops.len() == 0 {
        (v, m)
    } else {
        let (v1, m1) = apply(v, m, write, ops.drop_last());
        step(v1, m1, write, ops.last())
    }
}

pub open spec fn removes(ops: Seq<Op>, k: Seq<u8>) -> bool {
    exists|i: int| 0 <= i < ops.len() && ops[i] == Op::Remove(k)
}

/// An index opened where no state was saved is consistent with any store.
pub proof fn lemma_fresh_consistent(p: Seq<u8>, order: u32, m: Store)
    ensures
        consistent(DocIdsView { prefix: p, order, generation: 0, free: Set::empty(), next: 0, dirty: false }, m),
{
}

proof fn lemma_set_has_min(s: Set<u64>, w: u64)
    requires
        s.contains(w),
    ensures
        exists|x: u64| s.contains(x) && forall|y: u64| #[trigger] s.contains(y) ==> x <= y,
    decreases w,
{
    if exists|y: u64| s.contains(y) && y < w {
        let y = choose|y: u64| s.contains(y) && y < w;
        lemma_set_has_min(s, y);
    } else {
        assert(forall|y: u64| #[trigger] s.contains(y) ==> w <= y);
    }
}

/// The id allocated is free or the counter itself, so no key holds it.
proof fn lemma_allocate(v: DocIdsView)
    requires
        can_allocate(v),
    ensures
        ({
            let (id, v2) = allocate(v);
            &&& free_below(v) ==> id < v2.next && free_below(v2)
            &&& v2.next >= v.next
            &&& !v2.free.contains(id)
            &&& v2.free.subset_of(v.free)
            &&& v2.prefix == v.prefix
            &&& (v.free.contains(id) || id == v.next)
            &&& (v2.next == v.next || (id == v.next && v2.next == v.next + 1))
        }),
{
    if v.free != Set::<u64>::empty() {
        if !(exists|x: u64| v.free.contains(x)) {
            assert(v.free =~= Set::<u64>::empty());
        }
        let w = choose|w: u64| v.free.contains(w);
        lemma_set_has_min(v.free, w);
        assert(v.free.contains(allocate(v).0));
    }
}

/// Resolving or removing a key leaves every other key's id in place; and
/// resolving a key that holds an id changes nothing.
pub proof fn lemma_step_keeps(v: DocIdsView, m: Store, write: bool, op: Op, k: Seq<u8>)
    requires
        held_id(v, m, k) is Some,
        op != Op::Remove(k),
    ensures
        held_id(step(v, m, write, op).0, step(v, m, write, op).1, k) == held_id(v, m, k),
        step(v, m, write, op).0.prefix == v.prefix,
        free_below(v) ==> free_below(step(v, m, write, op).0),
{
    let p = v.prefix;
    lemma_keys_distinct(p);
    let id = held_id(v, m, k).unwrap();
    let (v1, m1) = step(v, m, write, op);
    match op {
        Op::Resolve(d) => {
            if held_id(v, m, d) is None && can_allocate(v) && write {
                lemma_allocate(v);
                let nid = allocate(v).0;
                assert(nid != id);
                assert(d != k);
                assert(m1[fwd_key(p, k)] == m[fwd_key(p, k)]);
                assert(stored_key(m1, p, id) == stored_key(m, p, id));
            }
        },
        Op::Remove(d) => {
            if held_id(v, m, d) is Some && write {
                let rid = held_id(v, m, d).unwrap();
                assert(rid != id);
                assert(stored_key(m1, p, id) == stored_key(m, p, id));
            }
        },
    }
}

/// A key that holds an id keeps it through any changes that do not remove
/// it.
pub proof fn lemma_apply_keeps(v: DocIdsView, m: Store, write: bool, ops: Seq<Op>, k: Seq<u8>)
    requires
        held_id(v, m, k) is Some,
        !removes(ops, k),
    ensures
        held_id(apply(v, m, write, ops).0, apply(v, m, write, ops).1, k) == held_id(v, m, k),
        apply(v, m, write, ops).0.prefix == v.prefix,
        free_below(v) ==> free_below(apply(v, m, write, ops).0),
    decreases ops.len(),
{
    if ops.len() > 0 {
        let init = ops.drop_last();
        assert(!removes(init, k)) by {
            if removes(init, k) {
                let i = choose|i: int| 0 <= i < init.len() && init[i] == Op::Remove(k);
                assert(ops[i] == Op::Remove(k));
            }
        }
        lemma_apply_keeps(v, m, write, init, k);
        let (v1, m1) = apply(v, m, write, init);
        assert(ops.last() != Op::Remove(k)) by {
            if ops.last() == Op::Remove(k) {
                assert(ops[ops.len() - 1] == Op::Remove(k));
            }
        }
        lemma_step_keeps(v1, m1, write, ops.last(), k);
    }
}

/// After a successful resolve the key holds the id it was given.
pub proof fn lemma_resolve_holds(v: DocIdsView, m: Store, write: bool, doc: Seq<u8>)
    requires
        free_below(v),
        resolve_spec(v, m, write, doc).2 is Ok,
    ensures
        ({
            let (v1, m1, r1) = resolve_spec(v, m, write, doc);
            &&& held_id(v1, m1, doc) == Some(r1->Ok_0.id())
            &&& v1.prefix == v.prefix
            &&& free_below(v1)
        }),
{
    let p = v.prefix;
    lemma_keys_distinct(p);
    let (v1, m1, r1) = resolve_spec(v, m, write, doc);
    if held_id(v, m, doc) is None {
        let id = r1->Ok_0.id();
        lemma_allocate(v);
        lemma_be8_round_trip(id);
        assert(m1[fwd_key(p, doc)] == be8(id));
        assert(raw_id(m1, p, doc) == Some(id));
        assert(stored_key(m1, p, id) == Some(doc));
    }
}

/// Resolving a key, then making any changes that do not remove it, then
/// resolving it again gives `Existing` with the id of the first time, and
/// changes nothing.
pub proof fn lemma_resolve_idempotent(v: DocIdsView, m: Store, write: bool, doc: Seq<u8>, ops: Seq<Op>)
    requires
        free_below(v),
        resolve_spec(v, m, write, doc).2 is Ok,
        !removes(ops, doc),
    ensures
        ({
            let (v1, m1, r1) = resolve_spec(v, m, write, doc);
            let (v2, m2) = apply(v1, m1, write, ops);
            resolve_spec(v2, m2, write, doc) == (v2, m2, Ok::<Resolved, Error>(Resolved::Existing(r1->Ok_0.id())))
        }),
{
    let (v1, m1, r1) = resolve_spec(v, m, write, doc);
    lemma_resolve_holds(v, m, write, doc);
    lemma_apply_keeps(v1, m1, write, ops, doc);
}

/// Two distinct keys never hold the same id.
pub proof fn lemma_held_ids_differ(v: DocIdsView, m: Store, k1: Seq<u8>, k2: Seq<u8>)
    requires
        k1 != k2,
        held_id(v, m, k1) is Some,
        held_id(v, m, k2) is Some,
    ensures
        held_id(v, m, k1) != held_id(v, m, k2),
{
}

/// Two distinct keys resolved successfully, with any changes before,
/// between and after that remove neither, have different ids.
pub proof fn lemma_resolved_ids_differ(
    v: DocIdsView,
    m: Store,
    write: bool,
    k1: Seq<u8>,
    between: Seq<Op>,
    k2: Seq<u8>,
    after: Seq<Op>,
)
    requires
        free_below(v),
        k1 != k2,
        resolve_spec(v, m, write, k1).2 is Ok,
        !removes(between, k1),
        !removes(after, k1),
        !removes(after, k2),
        ({
            let (v1, m1, r1) = resolve_spec(v, m, write, k1);
            let (v2, m2) = apply(v1, m1, write, between);
            resolve_spec(v2, m2, write, k2).2 is Ok
        }),
    ensures
        ({
            let (v1, m1, r1) = resolve_spec(v, m, write, k1);
            let (v2, m2) = apply(v1, m1, write, between);
            let (v3, m3, r2) = resolve_spec(v2, m2, write, k2);
            let (v4, m4) = apply(v3, m3, write, after);
            &&& r1->Ok_0.id() != r2->Ok_0.id()
            &&& held_id(v4, m4, k1) == Some(r1->Ok_0.id())
            &&& held_id(v4, m4, k2) == Some(r2->Ok_0.id())
        }),
{
    let (v1, m1, r1) = resolve_spec(v, m, write, k1);
    lemma_resolve_holds(v, m, write, k1);
    lemma_apply_keeps(v1, m1, write, between, k1);
    let (v2, m2) = apply(v1, m1, write, between);
    let (v3, m3, r2) = resolve_spec(v2, m2, write, k2);
    lemma_resolve_holds(v2, m2, write, k2);
    lemma_step_keeps(v2, m2, write, Op::Resolve(k2), k1);
    lemma_apply_keeps(v3, m3, write, after, k1);
    lemma_apply_keeps(v3, m3, write, after, k2);
}

/// After a key is resolved, and until it is removed, the reverse entry of
/// its id names it; removing it returns that id and the entry is gone.
pub proof fn lemma_reverse_consistent(v: DocIdsView, m: Store, write: bool, doc: Seq<u8>, ops: Seq<Op>)
    requires
        free_below(v),
        resolve_spec(v, m, write, doc).2 is Ok,
        !removes(ops, doc),
    ensures
        ({
            let (v1, m1, r1) = resolve_spec(v, m, write, doc);
            let id = r1->Ok_0.id();
            let (v2, m2) = apply(v1, m1, write, ops);
            let (v3, m3, r3) = remove_spec(v2, m2, write, doc);
            &&& stored_key(m2, v.prefix, id) == Some(doc)
            &&& write ==> r3 == Ok::<Option<u64>, Error>(Some(id)) && stored_key(m3, v.prefix, id) is None
                && held_id(v3, m3, doc) is None
        }),
{
    let p = v.prefix;
    lemma_keys_distinct(p);
    let (v1, m1, r1) = resolve_spec(v, m, write, doc);
    lemma_resolve_holds(v, m, write, doc);
    lemma_apply_keeps(v1, m1, write, ops, doc);
    let (v2, m2) = apply(v1, m1, write, ops);
    let (v3, m3, r3) = remove_spec(v2, m2, write, doc);
    if write {
        assert(raw_id(m3, p, doc) is None);
    }
}

/// Resolving keeps the index consistent with its store.
pub proof fn lemma_resolve_consistent(v: DocIdsView, m: Store, write: bool, doc: Seq<u8>)
    requires
        consistent(v, m),
    ensures
        ({
            let (v1, m1, r) = resolve_spec(v, m, write, doc);
            consistent(v1, m1)
        }),
{
    let (v1, m1, r) = resolve_spec(v, m, write, doc);
    if held_id(v, m, doc) is None && can_allocate(v) && write {
        lemma_allocate(v);
        lemma_resolve_holds(v, m, write, doc);
        assert forall|j: u64| j < v1.next && !v1.free.contains(j) implies #[trigger] held_by_key(v1, m1, j) by {
            lemma_resolve_keeps_holder(v, m, write, doc, j);
        }
    }
}

proof fn lemma_resolve_keeps_holder(v: DocIdsView, m: Store, write: bool, doc: Seq<u8>, j: u64)
    requires
        consistent(v, m),
        held_id(v, m, doc) is None,
        can_allocate(v),
        write,
        j < resolve_spec(v, m, write, doc).0.next,
        !resolve_spec(v, m, write, doc).0.free.contains(j),
    ensures
        held_by_key(resolve_spec(v, m, write, doc).0, resolve_spec(v, m, write, doc).1, j),
{
    let p = v.prefix;
    let (v1, m1, r) = resolve_spec(v, m, write, doc);
    let id = allocate(v).0;
    lemma_allocate(v);
    lemma_resolve_holds(v, m, write, doc);
    if j == id {
        lemma_keys_distinct(p);
        assert(stored_key(m1, p, id) == Some(doc));
    } else {
        assert(j < v.next && !v.free.contains(j));
        assert(held_by_key(v, m, j));
        let kj = stored_key(m, p, j).unwrap();
        lemma_step_keeps(v, m, write, Op::Resolve(doc), kj);
        lemma_keys_distinct(p);
        assert(rev_key(p, j) != rev_key(p, id));
        assert(stored_key(m1, p, j) == stored_key(m, p, j));
    }
}

/// Removing keeps the index consistent with its store.
pub proof fn lemma_remove_consistent(v: DocIdsView, m: Store, write: bool, doc: Seq<u8>)
    requires
        consistent(v, m),
    ensures
        ({
            let (v1, m1, r) = remove_spec(v, m, write, doc);
            consistent(v1, m1)
        }),
{
    let p = v.prefix;
    lemma_keys_distinct(p);
    let (v1, m1, r) = remove_spec(v, m, write, doc);
    if held_id(v, m, doc) is Some && write {
        let id = held_id(v, m, doc).unwrap();
        assert forall|j: u64| j < v1.next && !v1.free.contains(j) implies #[trigger] held_by_key(v1, m1, j) by {
            assert(j != id);
            assert(held_by_key(v, m, j));
            let kj = stored_key(m, p, j).unwrap();
            assert(kj != doc);
            assert(stored_key(m1, p, j) == stored_key(m, p, j));
            assert(m1.contains_key(fwd_key(p, kj)) == m.contains_key(fwd_key(p, kj)));
            assert(raw_id(m1, p, kj) == raw_id(m, p, kj));
        }
    }
}

/// Finishing and then opening the index again from the same store gives
/// the state that finishing left; every key and id looks up as before, and
/// consistency is kept.
pub proof fn lemma_finish_reopen(v: DocIdsView, m: Store, write: bool, ids: Seq<u64>, default_order: u32)
    requires
        free_below(v),
        covers(ids, v.free),
        ids.len() < u64::MAX,
    ensures
        ({
            let (v1, m1, r) = finish_spec(v, m, write, ids);
            &&& r is Ok && v.dirty ==> open_spec(m1, v.prefix, default_order) == Ok::<DocIdsView, Error>(v1)
            &&& forall|doc: Seq<u8>| #[trigger] held_id(v1, m1, doc) == held_id(v, m, doc)
            &&& forall|id: u64| #[trigger] stored_key(m1, v.prefix, id) == stored_key(m, v.prefix, id)
            &&& consistent(v, m) ==> consistent(v1, m1)
        }),
{
    let p = v.prefix;
    lemma_keys_distinct(p);
    let (v1, m1, r) = finish_spec(v, m, write, ids);
    if v.dirty && write {
        let g = next_generation(v.generation);
        let rec = StateRecord { order: v.order, generation: g, next: v.next, free: ids };
        lemma_state_round_trip(rec);
        assert(m1[state_key(p)] == encode_state(rec));
        assert(view_of(p, rec) =~= v1);
        assert forall|i: int| 0 <= i && 2 * i + 1 < ids.len() implies #[trigger] run_last(ids, i) < v.next by {
            assert(in_run(ids, i, run_last(ids, i)));
            assert(runs_set(ids).contains(run_last(ids, i)));
        }
    }
    assert forall|doc: Seq<u8>| #[trigger] held_id(v1, m1, doc) == held_id(v, m, doc) by {
        assert(raw_id(m1, p, doc) == raw_id(m, p, doc));
        if raw_id(m, p, doc) is Some {
            let i = raw_id(m, p, doc).unwrap();
            assert(stored_key(m1, p, i) == stored_key(m, p, i));
        }
    }
    if consistent(v, m) {
        assert forall|j: u64| j < v1.next && !v1.free.contains(j) implies #[trigger] held_by_key(v1, m1, j) by {
            assert(held_by_key(v, m, j));
            assert(stored_key(m1, p, j) == stored_key(m, p, j));
        }
    }
}

pub struct DocIds {
    state_key: Vec<u8>,
    index_key_base: IndexKeyBase,
    order: u32,
    generation: u64,
    available_ids: Option<RoaringTreemap>,
    next_doc_id: DocId,
    dirty: bool,
}

impl View for DocIds {
    type V = DocIdsView;

    closed spec fn view(&self) -> DocIdsView {
        DocIdsView {
            prefix: self.index_key_base@,
            order: self.order,
            generation: self.generation,
            free: match self.available_ids {
                Some(t) => treemap_ids(t),
                None => Set::empty(),
            },
            next: self.next_doc_id,
            dirty: self.dirty,
        }
    }
}

proof fn lemma_to_set_push(s: Seq<u64>, i: int)
    requires
        0 <= i < s.len(),
    ensures
        s.subrange(0, i + 1).to_set() == s.subrange(0, i).to_set().insert(s[i]),
{
    let a = s.subrange(0, i + 1);
    let b = s.subrange(0, i);
    assert forall|x: u64| #[trigger] a.to_set().contains(x) == b.to_set().insert(s[i]).contains(x) by {
        if a.contains(x) {
            let j = choose|j: int| 0 <= j < a.len() && a[j] == x;
            if j < i {
                assert(b[j] == x);
            }
        }
        if b.contains(x) {
            let j = choose|j: int| 0 <= j < b.len() && b[j] == x;
            assert(a[j] == x);
        }
        if x == s[i] {
            assert(a[i] == x);
        }
    }
    assert(a.to_set() =~= b.to_set().insert(s[i]));
}

proof fn lemma_runs_push(w: Seq<u64>, first: u64, last: u64)
    requires
        w.len() % 2 == 0,
    ensures
        runs_set(w.push(first).push(last)) == runs_set(w).union(Set::new(|x: u64| first <= x && x <= last)),
{
    let w2 = w.push(first).push(last);
    let n = w.len() as int / 2;
    assert forall|x: u64| #[trigger] runs_set(w2).contains(x) == runs_set(w).union(Set::new(|x: u64| first <= x && x <= last)).contains(x) by {
        if runs_set(w2).contains(x) {
            let i = choose|i: int| #[trigger] in_run(w2, i, x);
            if i < n {
                assert(in_run(w, i, x));
            } else {
                assert(i == n);
            }
        }
        if runs_set(w).contains(x) {
            let i = choose|i: int| #[trigger] in_run(w, i, x);
            assert(in_run(w2, i, x));
        }
        if first <= x && x <= last {
            assert(in_run(w2, n, x));
        }
    }
    assert(runs_set(w2) =~= runs_set(w).union(Set::new(|x: u64| first <= x && x <= last)));
}

/// The runs of consecutive ids in `ids`, as first and last id of each.
fn runs_of(ids: &Vec<u64>) -> (r: Vec<u64>)
    ensures
        covers(r@, ids@.to_set()),
        r@.len() <= 2 * ids@.len(),
{
    let mut out: Vec<u64> = Vec::new();
    if ids.len() == 0 {
        assert(ids@.to_set() =~= Set::<u64>::empty());
        assert(runs_set(out@) =~= Set::<u64>::empty());
        return out;
    }
    let mut first = ids[0];
    let mut last = ids[0];
    let mut i: usize = 1;
    proof {
        lemma_runs_push(out@, first, last);
        lemma_to_set_push(ids@, 0);
        assert(ids@.subrange(0, 0).to_set() =~= Set::<u64>::empty());
        assert(runs_set(out@) =~= Set::<u64>::empty());
        assert(runs_set(out@.push(first).push(last)) =~= ids@.subrange(0, 1).to_set());
    }
    while i < ids.len()
        invariant
            1 <= i <= ids@.len(),
            first <= last,
            out@.len() % 2 == 0,
            out@.len() <= 2 * (i - 1),
            runs_set(out@.push(first).push(last)) == ids@.subrange(0, i as int).to_set(),
            forall|j: int| 0 <= j && 2 * j + 1 < out@.len() ==> out@[2 * j] <= #[trigger] run_last(out@, j),
        decreases ids@.len() - i,
    {
        let x = ids[i];
        proof {
            lemma_to_set_push(ids@, i as int);
            lemma_runs_push(out@, first, last);
        }
        if last < u64::MAX && x == last + 1 {
            proof {
                lemma_runs_push(out@, first, (last + 1) as u64);
                assert(Set::new(|y: u64| first <= y && y <= last + 1) =~= Set::new(|y: u64| first <= y && y <= last).insert(x));
                assert(runs_set(out@.push(first).push((last + 1) as u64)) =~= ids@.subrange(0, i + 1).to_set());
            }
            last = x;
        } else {
            let ghost prev = out@;
            out.push(first);
            out.push(last);
            proof {
                assert(out@ == prev.push(first).push(last));
                lemma_runs_push(out@, x, x);
                assert(Set::new(|y: u64| x <= y && y <= x) =~= Set::<u64>::empty().insert(x));
                assert(runs_set(out@.push(x).push(x)) =~= ids@.subrange(0, i + 1).to_set());
                assert forall|j: int| 0 <= j && 2 * j + 1 < out@.len() implies out@[2 * j] <= #[trigger] run_last(out@, j) by {
                    if 2 * j + 1 < prev.len() {
                        assert(run_last(prev, j) == run_last(out@, j));
                    }
                }
            }
            first = x;
            last = x;
        }
        i = i + 1;
    }
    let ghost prev = out@;
    out.push(first);
    out.push(last);
    assert(ids@.subrange(0, ids@.len() as int) =~= ids@);
    assert forall|j: int| 0 <= j && 2 * j + 1 < out@.len() implies out@[2 * j] <= #[trigger] run_last(out@, j) by {
        if 2 * j + 1 < prev.len() {
            assert(run_last(prev, j) == run_last(out@, j));
        }
    }
    out
}

impl DocIds {
    /// The free pool is absent rather than empty and lies below the
    /// counter, and the state key is the one of the prefix.
    pub closed spec fn wf(&self) -> bool {
        &&& self.state_key@ == state_key(self.index_key_base@)
        &&& free_below(self@)
        &&& match self.available_ids {
            Some(t) => treemap_ids(t) != Set::<u64>::empty(),
            None => true,
        }
    }

    /// Loads the state persisted for `ikb`, or starts a fresh index with
    /// tree order `default_btree_order` when none is stored.
    pub fn new(tx: &Transaction, ikb: IndexKeyBase, default_btree_order: u32) -> (r: Result<DocIds, Error>)
        requires
            tx.wf(),
        ensures
            match r {
                Ok(d) => d.wf() && open_spec(tx@, ikb@, default_btree_order) == Ok::<DocIdsView, Error>(d@),
                Err(e) => open_spec(tx@, ikb@, default_btree_order) == Err::<DocIdsView, Error>(e),
            },
            !tx@.contains_key(state_key(ikb@)) ==> r is Ok && consistent(r->Ok_0@, tx@) && forall|k: Seq<u8>|
                #[trigger] held_id(r->Ok_0@, tx@, k) is None,
    {
        let state_key = ikb.new_bd_key();
        match tx.get(state_key.as_slice()) {
            None => {
                let d = DocIds {
                    state_key,
                    index_key_base: ikb,
                    order: default_btree_order,
                    generation: 0,
                    available_ids: None,
                    next_doc_id: 0,
                    dirty: false,
                };
                assert(d@ =~= DocIdsView { prefix: ikb@, order: default_btree_order, generation: 0, free: Set::empty(), next: 0, dirty: false });
                Ok(d)
            },
            Some(val) => match decode(val.as_slice()) {
                Err(e) => Err(Error::Revision(e)),
                Ok((order, generation, next, runs)) => {
                    let mut t = RoaringTreemap::new();
                    let mut k: usize = 0;
                    let n = runs.len() / 2;
                    assert(runs@.subrange(0, 0) =~= Seq::<u64>::empty());
                    assert(runs_set(Seq::<u64>::empty()) =~= Set::<u64>::empty());
                    while k < n
                        invariant
                            n == runs@.len() / 2,
                            2 * n == runs@.len(),
                            runs@.len() % 2 == 0,
                            decode_state(val@) is Some,
                            runs@ == decode_state(val@).unwrap().free,
                            next == decode_state(val@).unwrap().next,
                            tx@.contains_key(state_key@),
                            state_key@ == crate::keys::state_key(ikb@),
                            val@ == tx@[state_key@],
                            k <= n,
                            treemap_ids(t) == runs_set(runs@.subrange(0, 2 * k)),
                            forall|j: int| 0 <= j < k ==> #[trigger] run_last(runs@, j) < next,
                        decreases n - k,
                    {
                        assert(2 * k + 1 < runs@.len());
                        let first = runs[2 * k];
                        let last = runs[2 * k + 1];
                        if last >= next {
                            assert(run_last(runs@, k as int) >= next);
                            assert(!runs_below(runs@, next));
                            return Err(Error::Revision(DecodeError::FreeIdBeyondCounter));
                        }
                        proof {
                            lemma_runs_push(runs@.subrange(0, 2 * k), first, last);
                            assert(runs@.subrange(0, 2 * k + 2) =~= runs@.subrange(0, 2 * k).push(first).push(last));
                        }
                        treemap_insert_run(&mut t, first, last);
                        k = k + 1;
                    }
                    assert(runs@.subrange(0, 2 * n) =~= runs@);
                    assert(runs_below(runs@, next));
                    let available_ids = if t.is_empty() {
                        None
                    } else {
                        Some(t)
                    };
                    let d = DocIds {
                        state_key,
                        index_key_base: ikb,
                        order,
                        generation,
                        available_ids,
                        next_doc_id: next,
                        dirty: false,
                    };
                    assert(free_below(d@)) by {
                        assert forall|x: u64| #[trigger] d@.free.contains(x) implies x < next by {
                            let i = choose|i: int| #[trigger] in_run(runs@, i, x);
                            assert(run_last(runs@, i) < next);
                        }
                    }
                    Ok(d)
                },
            },
        }
    }

    fn get_next_doc_id(&mut self) -> (r: DocId)
        requires
            old(self).wf(),
            can_allocate(old(self)@),
        ensures
            final(self).wf(),
            (r, final(self)@) == allocate(old(self)@),
    {
        let ghost v = self@;
        if let Some(mut available_ids) = self.available_ids.take() {
            if let Some(available_id) = available_ids.min() {
                proof {
                    let c = min_of(v.free);
                    assert(v.free.contains(available_id));
                    assert(c <= available_id && available_id <= c);
                }
                available_ids.remove(available_id);
                if !available_ids.is_empty() {
                    self.available_ids = Some(available_ids);
                } else {
                    assert(v.free.remove(available_id) =~= Set::<u64>::empty());
                }
                assert(self@ =~= allocate(v).1);
                return available_id;
            }
        }
        let doc_id = self.next_doc_id;
        self.next_doc_id = self.next_doc_id + 1;
        assert(self@ =~= allocate(v).1);
        doc_id
    }

    /// The id that `doc_key` holds, if any (see `held_id`).
    pub fn get_doc_id(&self, tx: &Transaction, doc_key: Vec<u8>) -> (r: Option<DocId>)
        requires
            tx.wf(),
        ensures
            r == held_id(self@, tx@, doc_key@),
    {
        let k = self.index_key_base.new_bk_key(doc_key.as_slice());
        let id = match tx.get(k.as_slice()) {
            Some(v) => if v.len() == 8 {
                assert(v@.subrange(0, 8) =~= v@);
                read_be8(v.as_slice(), 0)
            } else {
                return None;
            },
            None => return None,
        };
        if id >= self.next_doc_id {
            return None;
        }
        let is_free = match &self.available_ids {
            Some(t) => t.contains(id),
            None => false,
        };
        if is_free {
            return None;
        }
        match tx.get(self.index_key_base.new_bi_key(id).as_slice()) {
            Some(back) => if bytes_eq(back.as_slice(), doc_key.as_slice()) {
                Some(id)
            } else {
                None
            },
            None => None,
        }
    }

    /// Returns the id of `doc_key`; when it has none, allocates one (the
    /// smallest free id, else the next of the counter) and writes the
    /// reverse and the forward entry.
    pub fn resolve_doc_id(&mut self, tx: &mut Transaction, doc_key: Vec<u8>) -> (r: Result<Resolved, Error>)
        requires
            old(self).wf(),
            old(tx).wf(),
        ensures
            final(self).wf(),
            final(tx).wf(),
            final(tx).kind() == old(tx).kind(),
            (final(self)@, final(tx)@, r) == resolve_spec(old(self)@, old(tx)@, old(tx).kind() == TransactionType::Write, doc_key@),
            consistent(old(self)@, old(tx)@) ==> consistent(final(self)@, final(tx)@),
    {
        proof {
            if consistent(self@, tx@) {
                lemma_resolve_consistent(self@, tx@, tx.kind() == TransactionType::Write, doc_key@);
            }
        }
        let ghost v = self@;
        let ghost m = tx@;
        if let Some(doc_id) = self.get_doc_id(tx, copy_bytes(doc_key.as_slice())) {
            return Ok(Resolved::Existing(doc_id));
        }
        let pool_empty = self.available_ids.is_none();
        if pool_empty && self.next_doc_id == u64::MAX {
            return Err(Error::IdsExhausted);
        }
        if tx.transaction_type() == TransactionType::Read {
            return Err(Error::TxReadonly);
        }
        let doc_id = self.get_next_doc_id();
        let bi = self.index_key_base.new_bi_key(doc_id);
        match tx.set(bi, copy_bytes(doc_key.as_slice())) {
            Ok(()) => {},
            Err(e) => return Err(e),
        }
        let bk = self.index_key_base.new_bk_key(doc_key.as_slice());
        let mut val: Vec<u8> = Vec::new();
        push_be8(&mut val, doc_id);
        assert(val@ =~= be8(doc_id));
        match tx.set(bk, val) {
            Ok(()) => {},
            Err(e) => return Err(e),
        }
        self.dirty = true;
        Ok(Resolved::New(doc_id))
    }

    /// Removes `doc_key`: deletes both entries and returns its id to the
    /// free pool. `None` when the key has no id.
    pub fn remove_doc(&mut self, tx: &mut Transaction, doc_key: Vec<u8>) -> (r: Result<Option<DocId>, Error>)
        requires
            old(self).wf(),
            old(tx).wf(),
        ensures
            final(self).wf(),
            final(tx).wf(),
            final(tx).kind() == old(tx).kind(),
            (final(self)@, final(tx)@, r) == remove_spec(old(self)@, old(tx)@, old(tx).kind() == TransactionType::Write, doc_key@),
            consistent(old(self)@, old(tx)@) ==> consistent(final(self)@, final(tx)@),
    {
        proof {
            if consistent(self@, tx@) {
                lemma_remove_consistent(self@, tx@, tx.kind() == TransactionType::Write, doc_key@);
            }
        }
        let ghost v = self@;
        match self.get_doc_id(tx, copy_bytes(doc_key.as_slice())) {
            None => Ok(None),
            Some(doc_id) => {
                if tx.transaction_type() == TransactionType::Read {
                    return Err(Error::TxReadonly);
                }
                let bk = self.index_key_base.new_bk_key(doc_key.as_slice());
                match tx.del(bk.as_slice()) {
                    Ok(()) => {},
                    Err(e) => return Err(e),
                }
                let bi = self.index_key_base.new_bi_key(doc_id);
                match tx.del(bi.as_slice()) {
                    Ok(()) => {},
                    Err(e) => return Err(e),
                }
                match self.available_ids.take() {
                    Some(mut available_ids) => {
                        available_ids.insert(doc_id);
                        assert(treemap_ids(available_ids).contains(doc_id));
                        self.available_ids = Some(available_ids);
                    },
                    None => {
                        let mut available_ids = RoaringTreemap::new();
                        available_ids.insert(doc_id);
                        assert(treemap_ids(available_ids).contains(doc_id));
                        self.available_ids = Some(available_ids);
                    },
                }
                self.dirty = true;
                assert(self@ =~= DocIdsView { free: v.free.insert(doc_id), dirty: true, ..v });
                Ok(Some(doc_id))
            },
        }
    }

    /// The document key that `doc_id` stands for.
    pub fn get_doc_key(&self, tx: &Transaction, doc_id: DocId) -> (r: Option<Vec<u8>>)
        requires
            tx.wf(),
        ensures
            match r {
                Some(k) => stored_key(tx@, self@.prefix, doc_id) == Some(k@),
                None => stored_key(tx@, self@.prefix, doc_id) is None,
            },
    {
        let k = self.index_key_base.new_bi_key(doc_id);
        tx.get(k.as_slice())
    }

    /// The number of keys that hold an id: the ids below the counter that
    /// are not free.
    pub fn statistics(&self) -> (r: Statistics)
        ensures
            r.keys_count == keys_count_of(self@),
    {
        let free_count: usize = match &self.available_ids {
            Some(t) => {
                let vals = treemap_values(t);
                proof {
                    assert(vals@.no_duplicates());
                    vals@.unique_seq_to_set();
                }
                vals.len()
            },
            None => {
                assert(Set::<u64>::empty().len() == 0);
                0
            },
        };
        if free_count as u64 <= self.next_doc_id {
            Statistics { keys_count: self.next_doc_id - free_count as u64 }
        } else {
            Statistics { keys_count: 0 }
        }
    }

    /// Writes the state record, with the generation advanced, when anything
    /// changed since it was loaded; a scope that changed nothing writes
    /// nothing.
    pub fn finish(&mut self, tx: &mut Transaction) -> (r: Result<(), Error>)
        requires
            old(self).wf(),
            old(tx).wf(),
        ensures
            final(self).wf(),
            final(tx).wf(),
            final(tx).kind() == old(tx).kind(),
            exists|ids: Seq<u64>|
                #[trigger] covers(ids, old(self)@.free) && ids.len() < u64::MAX && (final(self)@, final(tx)@, r) == finish_spec(
                    old(self)@,
                    old(tx)@,
                    old(tx).kind() == TransactionType::Write,
                    ids,
                ),
    {
        let ghost v = self@;
        let ids = match &self.available_ids {
            Some(t) => treemap_values(t),
            None => {
                let e: Vec<u64> = Vec::new();
                assert(e@.to_set() =~= Set::<u64>::empty());
                e
            },
        };
        let vals = runs_of(&ids);
        assert(covers(vals@, v.free));
        let nv = vals.len();
        assert(vals@.len() < u64::MAX);
        if !self.dirty {
            assert(finish_spec(v, tx@, tx.kind() == TransactionType::Write, vals@) == (v, tx@, Ok::<(), Error>(())));
            return Ok(());
        }
        if tx.transaction_type() == TransactionType::Read {
            assert(finish_spec(v, tx@, false, vals@).2 == Err::<(), Error>(Error::TxReadonly));
            return Err(Error::TxReadonly);
        }
        let generation = if self.generation < u64::MAX { self.generation + 1 } else { self.generation };
        let bytes = encode(self.order, generation, self.next_doc_id, &vals);
        match tx.set(copy_bytes(self.state_key.as_slice()), bytes) {
            Ok(()) => {},
            Err(e) => return Err(e),
        }
        self.generation = generation;
        self.dirty = false;
        assert(finish_spec(v, old(tx)@, true, vals@).0 == self@);
        Ok(())
    }
}

} // verus!
