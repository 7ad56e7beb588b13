//! The persisted state record of a document-id index and its versioned
//! byte layouts.
//!
//! Every layout starts with a one-byte tag and ends with the same tail:
//! the next id to hand out, then the free ids as runs of consecutive ids:
//! the number of words that follow, and for each run its first and its
//! last id. All of these are big-endian `u64`s.
//! - tag 3, the current layout: tree order (8 bytes), generation (8 bytes), tail;
//! - tag 2, an older layout: tree order, one ignored byte, tail;
//! - tag 1, the oldest layout: tree order, tail.
//!
//! The older layouts carry no generation and are read with generation 0.
//! A new layout gets a new tag; the existing ones are never changed.
use vstd::prelude::*;

use crate::keys::{be8, from_be8, lemma_be8_round_trip, push_be8, read_be8};

verus! {

/// The contents of a state record; `free` holds the first and last id of
/// each run of free ids, one after the other.
pub struct StateRecord {
    pub order: u32,
    pub generation: u64,
    pub next: u64,
    pub free: Seq<u64>,
}

/// Why a record does not read in the current layout.
#[derive(Clone, Copy, Debug, PartialEq, Eq, Structural)]
pub enum DecodeError {
    Empty,
    /// The record starts with another layout's tag.
    UnknownLayout(u8),
    /// The record ends before its fixed fields do.
    Truncated,
    /// The tree order does not fit 32 bits.
    OrderTooLarge,
    /// The free runs do not fill the rest of the record exactly.
    BadRuns,
    /// A free id lies at or beyond the next id to hand out.
    FreeIdBeyondCounter,
}

/// The reason the current layout refuses `b`.
pub open spec fn current_error(b: Seq<u8>) -> DecodeError {
    if b.len() == 0 {
        DecodeError::Empty
    } else if b[0] != 3u8 {
        DecodeError::UnknownLayout(b[0])
    } else if b.len() < 17 {
        DecodeError::Truncated
    } else if parse_order(b, 1) is None {
        DecodeError::OrderTooLarge
    } else {
        DecodeError::BadRuns
    }
}

pub open spec fn ids_bytes(ids: Seq<u64>) -> Seq<u8>
    decreases ids.len(),
{
    if ids.len() == 0 {
        Seq::empty()
    } else {
        ids_bytes(ids.drop_last()) + be8(ids.last())
    }
}

pub open spec fn tail_bytes(next: u64, ids: Seq<u64>) -> Seq<u8> {
    be8(next) + be8(ids.len() as u64) + ids_bytes(ids)
}

/// The record in the current layout.
pub open spec fn encode_state(s: StateRecord) -> Seq<u8> {
    seq![3u8] + be8(s.order as u64) + be8(s.generation) + tail_bytes(s.next, s.free)
}

/// Reads the tail from `at`: it must fill the rest of `b` exactly.
pub open spec fn parse_tail(b: Seq<u8>, at: int) -> Option<(u64, Seq<u64>)> {
    if 0 <= at && at + 16 <= b.len() {
        let next = from_be8(b.subrange(at, at + 8));
        let count = from_be8(b.subrange(at + 8, at + 16));
        if b.len() - (at + 16) == 8 * count && count % 2 == 0 {
            Some((next, Seq::new(count as nat, |i: int| from_be8(b.subrange(at + 16 + 8 * i, at + 24 + 8 * i)))))
        } else {
            None
        }
    } else {
        None
    }
}

/// The tree order stored in the eight bytes from `at`, if it fits a `u32`.
pub open spec fn parse_order(b: Seq<u8>, at: int) -> Option<u32> {
    if 0 <= at && at + 8 <= b.len() && from_be8(b.subrange(at, at + 8)) <= u32::MAX {
        Some(from_be8(b.subrange(at, at + 8)) as u32)
    } else {
        None
    }
}

pub open spec fn parse_current(b: Seq<u8>) -> Option<StateRecord> {
    if b.len() >= 17 && b[0] == 3u8 && parse_order(b, 1) is Some && parse_tail(b, 17) is Some {
        let (next, free) = parse_tail(b, 17).unwrap();
        Some(StateRecord { order: parse_order(b, 1).unwrap(), generation: from_be8(b.subrange(9, 17)), next, free })
    } else {
        None
    }
}

pub open spec fn parse_skip(b: Seq<u8>) -> Option<StateRecord> {
    if b.len() >= 10 && b[0] == 2u8 && parse_order(b, 1) is Some && parse_tail(b, 10) is Some {
        let (next, free) = parse_tail(b, 10).unwrap();
        Some(StateRecord { order: parse_order(b, 1).unwrap(), generation: 0, next, free })
    } else {
        None
    }
}

pub open spec fn parse_oldest(b: Seq<u8>) -> Option<StateRecord> {
    if b.len() >= 9 && b[0] == 1u8 && parse_order(b, 1) is Some && parse_tail(b, 9) is Some {
        let (next, free) = parse_tail(b, 9).unwrap();
        Some(StateRecord { order: parse_order(b, 1).unwrap(), generation: 0, next, free })
    } else {
        None
    }
}

/// The current layout first, then each older one in turn.
pub open spec fn decode_state(b: Seq<u8>) -> Option<StateRecord> {
    if parse_current(b) is Some {
        parse_current(b)
    } else if parse_skip(b) is Some {
        parse_skip(b)
    } else {
        parse_oldest(b)
    }
}

pub proof fn lemma_ids_bytes(ids: Seq<u64>)
    ensures
        ids_bytes(ids).len() == 8 * ids.len(),
        forall|i: int| 0 <= i < ids.len() ==> #[trigger] ids_bytes(ids).subrange(8 * i, 8 * i + 8) == be8(ids[i]),
    decreases ids.len(),
{
    if ids.len() > 0 {
        let init = ids.drop_last();
        lemma_ids_bytes(init);
        lemma_be8_round_trip(ids.last());
        let b = ids_bytes(ids);
        assert forall|i: int| 0 <= i < ids.len() implies #[trigger] ids_bytes(ids).subrange(8 * i, 8 * i + 8) == be8(ids[i]) by {
            if i < ids.len() - 1 {
                assert(ids_bytes(init).subrange(8 * i, 8 * i + 8) == be8(init[i]));
                assert(b.subrange(8 * i, 8 * i + 8) =~= ids_bytes(init).subrange(8 * i, 8 * i + 8));
            } else {
                assert(b.subrange(8 * i, 8 * i + 8) =~= be8(ids.last()));
            }
        }
    }
}

proof fn lemma_parse_tail(pre: Seq<u8>, next: u64, ids: Seq<u64>)
    requires
        ids.len() < u64::MAX,
        ids.len() % 2 == 0,
    ensures
        parse_tail(pre + tail_bytes(next, ids), pre.len() as int) == Some((next, ids)),
{
    let b = pre + tail_bytes(next, ids);
    let at = pre.len() as int;
    lemma_be8_round_trip(next);
    lemma_be8_round_trip(ids.len() as u64);
    lemma_ids_bytes(ids);
    assert(b.subrange(at, at + 8) =~= be8(next));
    assert(b.subrange(at + 8, at + 16) =~= be8(ids.len() as u64));
    let (n2, ids2) = parse_tail(b, at).unwrap();
    assert forall|i: int| 0 <= i < ids.len() implies ids2[i] == ids[i] by {
        assert(ids_bytes(ids).subrange(8 * i, 8 * i + 8) == be8(ids[i]));
        assert(b.subrange(at + 16 + 8 * i, at + 24 + 8 * i) =~= ids_bytes(ids).subrange(8 * i, 8 * i + 8));
        lemma_be8_round_trip(ids[i]);
    }
    assert(ids2 =~= ids);
}

/// Reading back a record in the current layout gives the record.
pub proof fn lemma_state_round_trip(s: StateRecord)
    requires
        s.free.len() < u64::MAX,
        s.free.len() % 2 == 0,
    ensures
        decode_state(encode_state(s)) == Some(s),
{
    let pre = seq![3u8] + be8(s.order as u64) + be8(s.generation);
    let b = encode_state(s);
    assert(b =~= pre + tail_bytes(s.next, s.free));
    lemma_parse_tail(pre, s.next, s.free);
    lemma_be8_round_trip(s.order as u64);
    lemma_be8_round_trip(s.generation);
    assert(b.subrange(1, 9) =~= be8(s.order as u64));
    assert(b.subrange(9, 17) =~= be8(s.generation));
    assert(pre.len() == 17);
}

/// Writes a record in the current layout.
pub fn encode(order: u32, generation: u64, next: u64, free: &Vec<u64>) -> (r: Vec<u8>)
    ensures
        r@ == encode_state(StateRecord { order, generation, next, free: free@ }),
{
    let mut out: Vec<u8> = Vec::new();
    out.push(3u8);
    push_be8(&mut out, order as u64);
    push_be8(&mut out, generation);
    push_be8(&mut out, next);
    push_be8(&mut out, free.len() as u64);
    let ghost head = out@;
    let mut i: usize = 0;
    while i < free.len()
        invariant
            i <= free@.len(),
            out@ == head + ids_bytes(free@.subrange(0, i as int)),
        decreases free@.len() - i,
    {
        let ghost before = free@.subrange(0, i as int);
        push_be8(&mut out, free[i]);
        i = i + 1;
        assert(free@.subrange(0, i as int).drop_last() =~= before);
        assert(out@ =~= head + ids_bytes(free@.subrange(0, i as int)));
    }
    assert(free@.subrange(0, free@.len() as int) =~= free@);
    assert(out@ =~= encode_state(StateRecord { order, generation, next, free: free@ }));
    out
}

fn read_tail(b: &[u8], at: usize) -> (r: Option<(u64, Vec<u64>)>)
    ensures
        match r {
            Some((next, ids)) => parse_tail(b@, at as int) == Some((next, ids@)),
            None => parse_tail(b@, at as int) is None,
        },
{
    if b.len() < 16 || at > b.len() - 16 {
        return None;
    }
    let next = read_be8(b, at);
    let count = read_be8(b, at + 8);
    let rest = b.len() - (at + 16);
    if rest % 8 != 0 || (rest / 8) as u64 != count || count % 2 != 0 {
        return None;
    }
    let n: usize = rest / 8;
    let mut ids: Vec<u64> = Vec::new();
    let mut i: usize = 0;
    let mut off: usize = at + 16;
    let blen = b.len();
    while i < n
        invariant
            blen == b@.len(),
            n == count,
            8 * n == b@.len() - (at + 16),
            b@.len() == at + 16 + 8 * n,
            i <= n,
            off == at + 16 + 8 * i,
            ids@.len() == i,
            forall|j: int| 0 <= j < i ==> ids@[j] == from_be8(#[trigger] b@.subrange(at + 16 + 8 * j, at + 24 + 8 * j)),
        decreases n - i,
    {
        let v = read_be8(b, off);
        ids.push(v);
        assert(off + 8 <= blen);
        i = i + 1;
        off = off + 8;
    }
    let ghost spec_ids = parse_tail(b@, at as int).unwrap().1;
    assert(ids@ =~= spec_ids);
    Some((next, ids))
}

fn read_order(b: &[u8], at: usize) -> (r: Option<u32>)
    ensures
        r == parse_order(b@, at as int),
{
    if b.len() < 8 || at > b.len() - 8 {
        return None;
    }
    let v = read_be8(b, at);
    if v <= u32::MAX as u64 {
        Some(v as u32)
    } else {
        None
    }
}

/// A decoded record: order, generation, next id and the free runs.
pub type Decoded = (u32, u64, u64, Vec<u64>);

pub open spec fn decoded_is(d: Decoded, s: StateRecord) -> bool {
    d.0 == s.order && d.1 == s.generation && d.2 == s.next && d.3@ == s.free
}

fn decode_with(b: &[u8], tag: u8, skip: usize, with_generation: bool) -> (r: Option<Decoded>)
    requires
        b@.len() >= 9 + skip,
        skip <= 8,
        with_generation ==> skip == 8,
    ensures
        match r {
            Some(d) => {
                &&& b@[0] == tag
                &&& parse_order(b@, 1) is Some
                &&& parse_tail(b@, 9 + skip) == Some((d.2, d.3@))
                &&& d.0 == parse_order(b@, 1).unwrap()
                &&& d.1 == if with_generation { from_be8(b@.subrange(9, 17)) } else { 0 }
            },
            None => !(b@[0] == tag && parse_order(b@, 1) is Some && parse_tail(b@, 9 + skip) is Some),
        },
{
    if b[0] != tag {
        return None;
    }
    let order = match read_order(b, 1) {
        Some(o) => o,
        None => return None,
    };
    let generation = if with_generation { read_be8(b, 9) } else { 0 };
    match read_tail(b, 9 + skip) {
        Some((next, ids)) => Some((order, generation, next, ids)),
        None => None,
    }
}

fn current_layout_error(b: &[u8]) -> (r: DecodeError)
    ensures
        r == current_error(b@),
{
    if b.len() == 0 {
        DecodeError::Empty
    } else if b[0] != 3u8 {
        DecodeError::UnknownLayout(b[0])
    } else if b.len() < 17 {
        DecodeError::Truncated
    } else if read_order(b, 1).is_none() {
        DecodeError::OrderTooLarge
    } else {
        DecodeError::BadRuns
    }
}

/// Decodes a state record, trying the current layout and then each older
/// one; when none matches, the reason the current layout refused it.
pub fn decode(b: &[u8]) -> (r: Result<Decoded, DecodeError>)
    ensures
        match r {
            Ok(d) => decode_state(b@) is Some && decoded_is(d, decode_state(b@).unwrap()),
            Err(e) => decode_state(b@) is None && e == current_error(b@),
        },
{
    if b.len() >= 17 {
        if let Some(d) = decode_with(b, 3u8, 8, true) {
            return Ok(d);
        }
    }
    if b.len() >= 10 {
        if let Some(d) = decode_with(b, 2u8, 1, false) {
            return Ok(d);
        }
    }
    if b.len() >= 9 {
        if let Some(d) = decode_with(b, 1u8, 0, false) {
            return Ok(d);
        }
    }
    Err(current_layout_error(b))
}

} // verus!
