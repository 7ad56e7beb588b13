//! The keys under which a document-id index keeps its data: one state key,
//! a reverse entry per id and a forward entry per document key, all under
//! the index's own prefix.
use vstd::prelude::*;

use crate::kvs::copy_bytes;

verus! {

/// The eight big-endian bytes of `n`.
pub open spec fn be8(n: u64) -> Seq<u8> {
    seq![
        (n >> 56u64) as u8,
        (n >> 48u64) as u8,
        (n >> 40u64) as u8,
        (n >> 32u64) as u8,
        (n >> 24u64) as u8,
        (n >> 16u64) as u8,
        (n >> 8u64) as u8,
        n as u8,
    ]
}

/// The number whose big-endian bytes are the first eight of `b`.
pub open spec fn from_be8(b: Seq<u8>) -> u64 {
    ((b[0] as u64) << 56u64) | ((b[1] as u64) << 48u64) | ((b[2] as u64) << 40u64) | ((b[3] as u64)
        << 32u64) | ((b[4] as u64) << 24u64) | ((b[5] as u64) << 16u64) | ((b[6] as u64) << 8u64)
        | (b[7] as u64)
}

pub proof fn lemma_be8_round_trip(n: u64)
    ensures
        from_be8(be8(n)) == n,
        be8(n).len() == 8,
{
    let b = be8(n);
    let (b0, b1, b2, b3, b4, b5, b6, b7) = (b[0], b[1], b[2], b[3], b[4], b[5], b[6], b[7]);
    assert(b0 == (n >> 56u64) as u8 && b1 == (n >> 48u64) as u8 && b2 == (n >> 40u64) as u8 && b3
        == (n >> 32u64) as u8 && b4 == (n >> 24u64) as u8 && b5 == (n >> 16u64) as u8 && b6 == (n
        >> 8u64) as u8 && b7 == n as u8);
    assert(b0 == (n >> 56u64) as u8 && b1 == (n >> 48u64) as u8 && b2 == (n >> 40u64) as u8 && b3
        == (n >> 32u64) as u8 && b4 == (n >> 24u64) as u8 && b5 == (n >> 16u64) as u8 && b6 == (n
        >> 8u64) as u8 && b7 == n as u8 ==> ((b0 as u64) << 56u64) | ((b1 as u64) << 48u64) | ((
    b2 as u64) << 40u64) | ((b3 as u64) << 32u64) | ((b4 as u64) << 24u64) | ((b5 as u64)
        << 16u64) | ((b6 as u64) << 8u64) | (b7 as u64) == n) by (bit_vector);
}

pub proof fn lemma_be8_injective(a: u64, b: u64)
    ensures
        be8(a) == be8(b) ==> a == b,
{
    lemma_be8_round_trip(a);
    lemma_be8_round_trip(b);
}

/// Appends the big-endian bytes of `n` to `out`.
pub fn push_be8(out: &mut Vec<u8>, n: u64)
    ensures
        final(out)@ == old(out)@ + be8(n),
{
    out.push((n >> 56u64) as u8);
    out.push((n >> 48u64) as u8);
    out.push((n >> 40u64) as u8);
    out.push((n >> 32u64) as u8);
    out.push((n >> 24u64) as u8);
    out.push((n >> 16u64) as u8);
    out.push((n >> 8u64) as u8);
    out.push(n as u8);
    assert(final(out)@ =~= old(out)@ + be8(n));
}

/// Reads the big-endian number in the eight bytes of `b` from `at`.
pub fn read_be8(b: &[u8], at: usize) -> (r: u64)
    requires
        at + 8 <= b@.len(),
    ensures
        r == from_be8(b@.subrange(at as int, at + 8)),
{
    let ghost s = b@.subrange(at as int, at + 8);
    assert(s[0] == b[at as int] && s[7] == b[at + 7]);
    ((b[at] as u64) << 56u64) | ((b[at + 1] as u64) << 48u64) | ((b[at + 2] as u64) << 40u64) | ((
    b[at + 3] as u64) << 32u64) | ((b[at + 4] as u64) << 24u64) | ((b[at + 5] as u64) << 16u64)
        | ((b[at + 6] as u64) << 8u64) | (b[at + 7] as u64)
}

/// The prefix followed by `!b` and a one-letter tag: `d`, `i` or `k`.
pub open spec fn tagged(prefix: Seq<u8>, tag: u8) -> Seq<u8> {
    prefix + seq![0x21u8, 0x62u8, tag]
}

/// The key of the persisted state record.
pub open spec fn state_key(prefix: Seq<u8>) -> Seq<u8> {
    tagged(prefix, 0x64u8)
}

/// The key of the reverse entry of `id`, which holds its document key.
pub open spec fn rev_key(prefix: Seq<u8>, id: u64) -> Seq<u8> {
    tagged(prefix, 0x69u8) + be8(id)
}

/// The key of the forward entry of a document key, which holds its id.
pub open spec fn fwd_key(prefix: Seq<u8>, doc: Seq<u8>) -> Seq<u8> {
    tagged(prefix, 0x6bu8) + doc
}

/// The three kinds of key never meet, and each kind is injective.
pub proof fn lemma_keys_distinct(p: Seq<u8>)
    ensures
        forall|id: u64, d: Seq<u8>| #[trigger] rev_key(p, id) != #[trigger] fwd_key(p, d),
        forall|id: u64| #[trigger] rev_key(p, id) != state_key(p),
        forall|d: Seq<u8>| #[trigger] fwd_key(p, d) != state_key(p),
        forall|a: u64, b: u64| #[trigger] rev_key(p, a) == #[trigger] rev_key(p, b) ==> a == b,
        forall|a: Seq<u8>, b: Seq<u8>| #[trigger] fwd_key(p, a) == #[trigger] fwd_key(p, b) ==> a == b,
{
    let n = p.len() as int;
    assert forall|id: u64, d: Seq<u8>| #[trigger] rev_key(p, id) != #[trigger] fwd_key(p, d) by {
        assert(rev_key(p, id)[n + 2] == 0x69u8);
        assert(fwd_key(p, d)[n + 2] == 0x6bu8);
    }
    assert forall|id: u64| #[trigger] rev_key(p, id) != state_key(p) by {
        assert(rev_key(p, id)[n + 2] == 0x69u8);
        assert(state_key(p)[n + 2] == 0x64u8);
    }
    assert forall|d: Seq<u8>| #[trigger] fwd_key(p, d) != state_key(p) by {
        assert(fwd_key(p, d)[n + 2] == 0x6bu8);
        assert(state_key(p)[n + 2] == 0x64u8);
    }
    assert forall|a: u64, b: u64| #[trigger] rev_key(p, a) == #[trigger] rev_key(p, b) implies a == b by {
        assert(rev_key(p, a).subrange(n + 3, n + 11) =~= be8(a));
        assert(rev_key(p, b).subrange(n + 3, n + 11) =~= be8(b));
        lemma_be8_injective(a, b);
    }
    assert forall|a: Seq<u8>, b: Seq<u8>| #[trigger] fwd_key(p, a) == #[trigger] fwd_key(p, b) implies a == b by {
        assert(fwd_key(p, a).subrange(n + 3, fwd_key(p, a).len() as int) =~= a);
        assert(fwd_key(p, b).subrange(n + 3, fwd_key(p, b).len() as int) =~= b);
    }
}

/// The key prefix that sets one index's entries apart from all others.
pub struct IndexKeyBase {
    prefix: Vec<u8>,
}

impl View for IndexKeyBase {
    type V = Seq<u8>;

    closed spec fn view(&self) -> Seq<u8> {
        self.prefix@
    }
}

impl IndexKeyBase {
    pub fn new(prefix: &[u8]) -> (r: IndexKeyBase)
        ensures
            r@ == prefix@,
    {
        IndexKeyBase { prefix: copy_bytes(prefix) }
    }

    fn tagged_key(&self, tag: u8) -> (r: Vec<u8>)
        ensures
            r@ == tagged(self@, tag),
    {
        let mut k = copy_bytes(self.prefix.as_slice());
        k.push(0x21u8);
        k.push(0x62u8);
        k.push(tag);
        assert(k@ =~= tagged(self@, tag));
        k
    }

    pub fn new_bd_key(&self) -> (r: Vec<u8>)
        ensures
            r@ == state_key(self@),
    {
        self.tagged_key(0x64u8)
    }

    pub fn new_bi_key(&self, id: u64) -> (r: Vec<u8>)
        ensures
            r@ == rev_key(self@, id),
    {
        let mut k = self.tagged_key(0x69u8);
        push_be8(&mut k, id);
        k
    }

    pub fn new_bk_key(&self, doc: &[u8]) -> (r: Vec<u8>)
        ensures
            r@ == fwd_key(self@, doc@),
    {
        let mut k = self.tagged_key(0x6bu8);
        let mut i: usize = 0;
        let ghost base = k@;
        while i < doc.len()
            invariant
                i <= doc@.len(),
                k@ == base + doc@.subrange(0, i as int),
            decreases doc@.len() - i,
        {
            k.push(doc[i]);
            i = i + 1;
            assert(k@ =~= base + doc@.subrange(0, i as int));
        }
        assert(doc@.subrange(0, doc@.len() as int) =~= doc@);
        k
    }
}

} // verus!
