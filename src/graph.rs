//! Keys of graph edge pointers, and the prefixes and suffixes that bound
//! the edges of one record, one direction, or one foreign table.
//!
//! A key is `/`, then `*` and the namespace, `*` and the database, `*` and
//! the table, `~`, the record id, the direction, the foreign table and the
//! foreign record id. A string is its UTF-8 bytes and a NUL; an enum is its
//! variant index as four big-endian bytes, then its content; a number is
//! its eight big-endian bytes with the sign bit flipped, so that keys sort
//! as numbers do.
use vstd::prelude::*;
use vstd::slice::slice_subrange;
use vstd::utf8::{decode_utf8, encode_utf8, valid_utf8};

use crate::keys::{be8, from_be8, push_be8, read_be8};
use crate::Error;

verus! {

/// A record id.
#[derive(Debug, PartialEq, Eq)]
pub enum Id {
    Number(i64),
    String(String),
}

pub enum IdView {
    Number(i64),
    String(Seq<char>),
}

impl View for Id {
    type V = IdView;

    open spec fn view(&self) -> IdView {
        match self {
            Id::Number(n) => IdView::Number(*n),
            Id::String(s) => IdView::String(s@),
        }
    }
}

impl Id {
    pub fn duplicate(&self) -> (r: Id)
        ensures
            r@ == self@,
    {
        match self {
            Id::Number(n) => Id::Number(*n),
            Id::String(s) => Id::String(s.clone()),
        }
    }

    pub fn from_str(s: &str) -> (r: Id)
        ensures
            r@ == IdView::String(s@),
    {
        Id::String(s.to_owned())
    }
}

/// The direction of an edge.
#[derive(Clone, Copy, Debug, PartialEq, Eq, Structural)]
pub enum Dir {
    In,
    Out,
    Both,
}

/// A record: its table and its id.
#[derive(Debug, PartialEq, Eq)]
pub struct Thing {
    pub tb: String,
    pub id: Id,
}

/// The key of one graph edge pointer.
#[derive(Debug, PartialEq, Eq)]
pub struct Graph<'a> {
    pub ns: &'a str,
    pub db: &'a str,
    pub tb: &'a str,
    pub id: Id,
    pub eg: Dir,
    pub ft: &'a str,
    pub fk: Id,
}

pub struct GraphView {
    pub ns: Seq<char>,
    pub db: Seq<char>,
    pub tb: Seq<char>,
    pub id: IdView,
    pub eg: Dir,
    pub ft: Seq<char>,
    pub fk: IdView,
}

impl<'a> View for Graph<'a> {
    type V = GraphView;

    open spec fn view(&self) -> GraphView {
        GraphView { ns: self.ns@, db: self.db@, tb: self.tb@, id: self.id@, eg: self.eg, ft: self.ft@, fk: self.fk@ }
    }
}

pub open spec fn str_bytes(s: Seq<char>) -> Seq<u8> {
    encode_utf8(s) + seq![0u8]
}

pub open spec fn tag_bytes(t: u8) -> Seq<u8> {
    seq![0u8, 0u8, 0u8, t]
}

/// The sign bit of a 64-bit number, flipped in encoded record ids.
pub const SIGN: u64 = 0x8000_0000_0000_0000;

pub open spec fn id_bytes(id: IdView) -> Seq<u8> {
    match id {
        IdView::Number(n) => tag_bytes(0) + be8((n as u64) ^ SIGN),
        IdView::String(s) => tag_bytes(1) + str_bytes(s),
    }
}

pub open spec fn dir_tag(d: Dir) -> u8 {
    match d {
        Dir::In => 0,
        Dir::Out => 1,
        Dir::Both => 2,
    }
}

/// The bytes shared by every key of one record's edges.
pub open spec fn record_bytes(ns: Seq<char>, db: Seq<char>, tb: Seq<char>, id: IdView) -> Seq<u8> {
    seq![0x2fu8, 0x2au8] + str_bytes(ns) + seq![0x2au8] + str_bytes(db) + seq![0x2au8] + str_bytes(tb) + seq![0x7eu8]
        + id_bytes(id)
}

pub open spec fn graph_bytes(g: GraphView) -> Seq<u8> {
    record_bytes(g.ns, g.db, g.tb, g.id) + tag_bytes(dir_tag(g.eg)) + str_bytes(g.ft) + id_bytes(g.fk)
}

/// The first NUL at or after `i`; the length when there is none.
pub open spec fn zero_at(b: Seq<u8>, i: int) -> int
    decreases b.len() - i,
{
    if i < 0 || i >= b.len() {
        b.len() as int
    } else if b[i] == 0 {
        i
    } else {
        zero_at(b, i + 1)
    }
}

/// A string from `at`, and where it ends.
pub open spec fn parse_str(b: Seq<u8>, at: int) -> Option<(Seq<char>, int)> {
    let z = zero_at(b, at);
    if 0 <= at <= z < b.len() && valid_utf8(b.subrange(at, z)) {
        Some((decode_utf8(b.subrange(at, z)), z + 1))
    } else {
        None
    }
}

pub open spec fn parse_tag(b: Seq<u8>, at: int) -> Option<u8> {
    if 0 <= at && at + 4 <= b.len() && b[at] == 0 && b[at + 1] == 0 && b[at + 2] == 0 {
        Some(b[at + 3])
    } else {
        None
    }
}

pub open spec fn parse_id(b: Seq<u8>, at: int) -> Option<(IdView, int)> {
    match parse_tag(b, at) {
        Some(0u8) => if at + 12 <= b.len() {
            Some((IdView::Number((from_be8(b.subrange(at + 4, at + 12)) ^ SIGN) as i64), at + 12))
        } else {
            None
        },
        Some(1u8) => match parse_str(b, at + 4) {
            Some((s, e)) => Some((IdView::String(s), e)),
            None => None,
        },
        _ => None,
    }
}

pub open spec fn parse_dir(b: Seq<u8>, at: int) -> Option<Dir> {
    match parse_tag(b, at) {
        Some(0u8) => Some(Dir::In),
        Some(1u8) => Some(Dir::Out),
        Some(2u8) => Some(Dir::Both),
        _ => None,
    }
}

pub open spec fn byte_is(b: Seq<u8>, at: int, v: u8) -> bool {
    0 <= at < b.len() && b[at] == v
}

/// Reads a whole edge key.
pub open spec fn parse_graph(b: Seq<u8>) -> Option<GraphView> {
    if byte_is(b, 0, 0x2fu8) && byte_is(b, 1, 0x2au8) && parse_str(b, 2) is Some {
        let (ns, after_ns) = parse_str(b, 2).unwrap();
        if byte_is(b, after_ns, 0x2au8) && parse_str(b, after_ns + 1) is Some {
            let (db, after_db) = parse_str(b, after_ns + 1).unwrap();
            if byte_is(b, after_db, 0x2au8) && parse_str(b, after_db + 1) is Some {
                let (tb, after_tb) = parse_str(b, after_db + 1).unwrap();
                if byte_is(b, after_tb, 0x7eu8) && parse_id(b, after_tb + 1) is Some {
                    let (id, after_id) = parse_id(b, after_tb + 1).unwrap();
                    if parse_dir(b, after_id) is Some && parse_str(b, after_id + 4) is Some {
                        let eg = parse_dir(b, after_id).unwrap();
                        let (ft, after_ft) = parse_str(b, after_id + 4).unwrap();
                        if parse_id(b, after_ft) is Some && parse_id(b, after_ft).unwrap().1 == b.len() {
                            let fk = parse_id(b, after_ft).unwrap().0;
                            Some(GraphView { ns, db, tb, id, eg, ft, fk })
                        } else {
                            None
                        }
                    } else {
                        None
                    }
                } else {
                    None
                }
            } else {
                None
            }
        } else {
            None
        }
    } else {
        None
    }
}

/// Relies on core::str::from_utf8: the bytes as a string slice when they
/// are valid UTF-8, else none.
#[verifier::external_body]
fn utf8_str(b: &[u8]) -> (r: Option<&str>)
    ensures
        match r {
            Some(s) => valid_utf8(b@) && s@ == decode_utf8(b@),
            None => !valid_utf8(b@),
        },
{
    core::str::from_utf8(b).ok()
}

fn push_slice(out: &mut Vec<u8>, b: &[u8])
    ensures
        final(out)@ == old(out)@ + b@,
{
    let mut i: usize = 0;
    while i < b.len()
        invariant
            i <= b@.len(),
            out@ == old(out)@ + b@.subrange(0, i as int),
        decreases b@.len() - i,
    {
        out.push(b[i]);
        i = i + 1;
        assert(out@ =~= old(out)@ + b@.subrange(0, i as int));
    }
    assert(b@.subrange(0, b@.len() as int) =~= b@);
}

fn push_str(out: &mut Vec<u8>, s: &str)
    ensures
        final(out)@ == old(out)@ + str_bytes(s@),
{
    push_slice(out, s.as_bytes());
    out.push(0u8);
    assert(final(out)@ =~= old(out)@ + str_bytes(s@));
}

fn push_tag(out: &mut Vec<u8>, t: u8)
    ensures
        final(out)@ == old(out)@ + tag_bytes(t),
{
    out.push(0u8);
    out.push(0u8);
    out.push(0u8);
    out.push(t);
    assert(final(out)@ =~= old(out)@ + tag_bytes(t));
}

fn push_id(out: &mut Vec<u8>, id: &Id)
    ensures
        final(out)@ == old(out)@ + id_bytes(id@),
{
    match id {
        Id::Number(n) => {
            push_tag(out, 0u8);
            push_be8(out, (*n as u64) ^ SIGN);
        },
        Id::String(s) => {
            push_tag(out, 1u8);
            push_str(out, s.as_str());
        },
    }
    assert(final(out)@ =~= old(out)@ + id_bytes(id@));
}

fn push_record(out: &mut Vec<u8>, ns: &str, db: &str, tb: &str, id: &Id)
    ensures
        final(out)@ == old(out)@ + record_bytes(ns@, db@, tb@, id@),
{
    out.push(0x2fu8);
    out.push(0x2au8);
    push_str(out, ns);
    out.push(0x2au8);
    push_str(out, db);
    out.push(0x2au8);
    push_str(out, tb);
    out.push(0x7eu8);
    push_id(out, id);
    assert(final(out)@ =~= old(out)@ + record_bytes(ns@, db@, tb@, id@));
}

/// The edges of one record.
struct Prefix<'a> {
    ns: &'a str,
    db: &'a str,
    tb: &'a str,
    id: Id,
}

impl<'a> Prefix<'a> {
    fn new(ns: &'a str, db: &'a str, tb: &'a str, id: &Id) -> (r: Self)
        ensures
            r.ns@ == ns@ && r.db@ == db@ && r.tb@ == tb@ && r.id@ == id@,
    {
        Prefix { ns, db, tb, id: id.duplicate() }
    }

    fn encode(&self) -> (r: Vec<u8>)
        ensures
            r@ == record_bytes(self.ns@, self.db@, self.tb@, self.id@),
    {
        let mut out: Vec<u8> = Vec::new();
        push_record(&mut out, self.ns, self.db, self.tb, &self.id);
        assert(out@ =~= record_bytes(self.ns@, self.db@, self.tb@, self.id@));
        out
    }
}

/// The edges of one record in one direction.
struct PrefixEg<'a> {
    ns: &'a str,
    db: &'a str,
    tb: &'a str,
    id: Id,
    eg: Dir,
}

impl<'a> PrefixEg<'a> {
    fn new(ns: &'a str, db: &'a str, tb: &'a str, id: &Id, eg: &Dir) -> (r: Self)
        ensures
            r.ns@ == ns@ && r.db@ == db@ && r.tb@ == tb@ && r.id@ == id@ && r.eg == *eg,
    {
        PrefixEg { ns, db, tb, id: id.duplicate(), eg: *eg }
    }

    fn encode(&self) -> (r: Vec<u8>)
        ensures
            r@ == record_bytes(self.ns@, self.db@, self.tb@, self.id@) + tag_bytes(dir_tag(self.eg)),
    {
        let mut out: Vec<u8> = Vec::new();
        push_record(&mut out, self.ns, self.db, self.tb, &self.id);
        push_tag(&mut out, dir_code(self.eg));
        assert(out@ =~= record_bytes(self.ns@, self.db@, self.tb@, self.id@) + tag_bytes(dir_tag(self.eg)));
        out
    }
}

/// The edges of one record in one direction to one foreign table.
struct PrefixFt<'a> {
    ns: &'a str,
    db: &'a str,
    tb: &'a str,
    id: Id,
    eg: Dir,
    ft: &'a str,
}

impl<'a> PrefixFt<'a> {
    fn new(ns: &'a str, db: &'a str, tb: &'a str, id: &Id, eg: &Dir, ft: &'a str) -> (r: Self)
        ensures
            r.ns@ == ns@ && r.db@ == db@ && r.tb@ == tb@ && r.id@ == id@ && r.eg == *eg && r.ft@ == ft@,
    {
        PrefixFt { ns, db, tb, id: id.duplicate(), eg: *eg, ft }
    }

    fn encode(&self) -> (r: Vec<u8>)
        ensures
            r@ == record_bytes(self.ns@, self.db@, self.tb@, self.id@) + tag_bytes(dir_tag(self.eg)) + str_bytes(
                self.ft@,
            ),
    {
        let mut out: Vec<u8> = Vec::new();
        push_record(&mut out, self.ns, self.db, self.tb, &self.id);
        push_tag(&mut out, dir_code(self.eg));
        push_str(&mut out, self.ft);
        assert(out@ =~= record_bytes(self.ns@, self.db@, self.tb@, self.id@) + tag_bytes(dir_tag(self.eg)) + str_bytes(self.ft@));
        out
    }
}

fn dir_code(d: Dir) -> (r: u8)
    ensures
        r == dir_tag(d),
{
    match d {
        Dir::In => 0,
        Dir::Out => 1,
        Dir::Both => 2,
    }
}

/// The edge key from record `id` of `tb` in direction `eg` to `fk`.
pub fn new<'a>(ns: &'a str, db: &'a str, tb: &'a str, id: &Id, eg: &Dir, fk: &'a Thing) -> (r: Graph<'a>)
    ensures
        r@ == (GraphView { ns: ns@, db: db@, tb: tb@, id: id@, eg: *eg, ft: fk.tb@, fk: fk.id@ }),
{
    Graph::new(ns, db, tb, id.duplicate(), *eg, fk)
}

/// The lowest key of the edges of a record.
pub fn prefix(ns: &str, db: &str, tb: &str, id: &Id) -> (r: Result<Vec<u8>, Error>)
    ensures
        r matches Ok(k) && k@ == record_bytes(ns@, db@, tb@, id@).push(0x00),
{
    let mut k = Prefix::new(ns, db, tb, id).encode();
    k.push(0x00);
    Ok(k)
}

/// The highest key of the edges of a record.
pub fn suffix(ns: &str, db: &str, tb: &str, id: &Id) -> (r: Result<Vec<u8>, Error>)
    ensures
        r matches Ok(k) && k@ == record_bytes(ns@, db@, tb@, id@).push(0xff),
{
    let mut k = Prefix::new(ns, db, tb, id).encode();
    k.push(0xff);
    Ok(k)
}

/// The lowest key of the edges of a record in one direction.
pub fn egprefix(ns: &str, db: &str, tb: &str, id: &Id, eg: &Dir) -> (r: Result<Vec<u8>, Error>)
    ensures
        r matches Ok(k) && k@ == (record_bytes(ns@, db@, tb@, id@) + tag_bytes(dir_tag(*eg))).push(0x00),
{
    let mut k = PrefixEg::new(ns, db, tb, id, eg).encode();
    k.push(0x00);
    Ok(k)
}

/// The highest key of the edges of a record in one direction.
pub fn egsuffix(ns: &str, db: &str, tb: &str, id: &Id, eg: &Dir) -> (r: Result<Vec<u8>, Error>)
    ensures
        r matches Ok(k) && k@ == (record_bytes(ns@, db@, tb@, id@) + tag_bytes(dir_tag(*eg))).push(0xff),
{
    let mut k = PrefixEg::new(ns, db, tb, id, eg).encode();
    k.push(0xff);
    Ok(k)
}

/// The lowest key of the edges of a record in one direction to one table.
pub fn ftprefix(ns: &str, db: &str, tb: &str, id: &Id, eg: &Dir, ft: &str) -> (r: Result<Vec<u8>, Error>)
    ensures
        r matches Ok(k) && k@ == (record_bytes(ns@, db@, tb@, id@) + tag_bytes(dir_tag(*eg)) + str_bytes(ft@)).push(0x00),
{
    let mut k = PrefixFt::new(ns, db, tb, id, eg, ft).encode();
    k.push(0x00);
    Ok(k)
}

/// The highest key of the edges of a record in one direction to one table.
pub fn ftsuffix(ns: &str, db: &str, tb: &str, id: &Id, eg: &Dir, ft: &str) -> (r: Result<Vec<u8>, Error>)
    ensures
        r matches Ok(k) && k@ == (record_bytes(ns@, db@, tb@, id@) + tag_bytes(dir_tag(*eg)) + str_bytes(ft@)).push(0xff),
{
    let mut k = PrefixFt::new(ns, db, tb, id, eg, ft).encode();
    k.push(0xff);
    Ok(k)
}

impl<'a> Graph<'a> {
    pub fn new(ns: &'a str, db: &'a str, tb: &'a str, id: Id, eg: Dir, fk: &'a Thing) -> (r: Self)
        ensures
            r@ == (GraphView { ns: ns@, db: db@, tb: tb@, id: id@, eg, ft: fk.tb@, fk: fk.id@ }),
    {
        Graph { ns, db, tb, id, eg, ft: fk.tb.as_str(), fk: fk.id.duplicate() }
    }

    pub fn new_from_id(ns: &'a str, db: &'a str, tb: &'a str, id: Id, eg: Dir, ft: &'a str, fk: Id) -> (r: Self)
        ensures
            r@ == (GraphView { ns: ns@, db: db@, tb: tb@, id: id@, eg, ft: ft@, fk: fk@ }),
    {
        Graph { ns, db, tb, id, eg, ft, fk }
    }

    pub fn encode(&self) -> (r: Result<Vec<u8>, Error>)
        ensures
            r matches Ok(k) && k@ == graph_bytes(self@),
    {
        let mut out: Vec<u8> = Vec::new();
        push_record(&mut out, self.ns, self.db, self.tb, &self.id);
        push_tag(&mut out, dir_code(self.eg));
        push_str(&mut out, self.ft);
        push_id(&mut out, &self.fk);
        assert(out@ =~= graph_bytes(self@));
        Ok(out)
    }
}

fn find_zero(b: &[u8], at: usize) -> (r: usize)
    requires
        at <= b@.len(),
    ensures
        r == zero_at(b@, at as int),
        at <= r <= b@.len(),
{
    let mut i = at;
    while i < b.len() && b[i] != 0
        invariant
            at <= i <= b@.len(),
            zero_at(b@, at as int) == zero_at(b@, i as int),
        decreases b@.len() - i,
    {
        i = i + 1;
    }
    i
}

fn read_str<'b>(b: &'b [u8], at: usize) -> (r: Option<(&'b str, usize)>)
    ensures
        match r {
            Some((s, e)) => parse_str(b@, at as int) == Some((s@, e as int)),
            None => parse_str(b@, at as int) is None,
        },
{
    if at > b.len() {
        return None;
    }
    let z = find_zero(b, at);
    if z >= b.len() {
        return None;
    }
    match utf8_str(slice_subrange(b, at, z)) {
        Some(s) => Some((s, z + 1)),
        None => None,
    }
}

fn read_tag(b: &[u8], at: usize) -> (r: Option<u8>)
    ensures
        r == parse_tag(b@, at as int),
{
    if b.len() < 4 || at > b.len() - 4 {
        return None;
    }
    if b[at] == 0 && b[at + 1] == 0 && b[at + 2] == 0 {
        Some(b[at + 3])
    } else {
        None
    }
}

fn read_id(b: &[u8], at: usize) -> (r: Option<(Id, usize)>)
    ensures
        match r {
            Some((id, e)) => parse_id(b@, at as int) == Some((id@, e as int)),
            None => parse_id(b@, at as int) is None,
        },
{
    match read_tag(b, at) {
        Some(0u8) => {
            if b.len() < 12 || at > b.len() - 12 {
                return None;
            }
            let u = read_be8(b, at + 4);
            Some((Id::Number(#[verifier::truncate] ((u ^ SIGN) as i64)), at + 12))
        },
        Some(1u8) => {
            let blen = b.len();
            assert(at + 4 <= blen);
            match read_str(b, at + 4) {
                Some((s, e)) => Some((Id::String(s.to_owned()), e)),
                None => None,
            }
        },
        _ => None,
    }
}

fn read_dir(b: &[u8], at: usize) -> (r: Option<Dir>)
    ensures
        r == parse_dir(b@, at as int),
{
    match read_tag(b, at) {
        Some(0u8) => Some(Dir::In),
        Some(1u8) => Some(Dir::Out),
        Some(2u8) => Some(Dir::Both),
        _ => None,
    }
}

fn byte_at(b: &[u8], at: usize, v: u8) -> (r: bool)
    ensures
        r == byte_is(b@, at as int, v),
{
    at < b.len() && b[at] == v
}

impl<'a> Graph<'a> {
    /// Reads an edge key back; `InvalidKey` when the bytes are no edge key.
    pub fn decode(b: &'a [u8]) -> (r: Result<Graph<'a>, Error>)
        ensures
            match r {
                Ok(g) => parse_graph(b@) == Some(g@),
                Err(e) => parse_graph(b@) is None && e == Error::InvalidKey,
            },
    {
        if !(byte_at(b, 0, 0x2fu8) && byte_at(b, 1, 0x2au8)) {
            return Err(Error::InvalidKey);
        }
        let (ns, after_ns) = match read_str(b, 2) {
            Some(x) => x,
            None => return Err(Error::InvalidKey),
        };
        if !byte_at(b, after_ns, 0x2au8) || after_ns >= b.len() {
            return Err(Error::InvalidKey);
        }
        let (db, after_db) = match read_str(b, after_ns + 1) {
            Some(x) => x,
            None => return Err(Error::InvalidKey),
        };
        if !byte_at(b, after_db, 0x2au8) || after_db >= b.len() {
            return Err(Error::InvalidKey);
        }
        let (tb, after_tb) = match read_str(b, after_db + 1) {
            Some(x) => x,
            None => return Err(Error::InvalidKey),
        };
        if !byte_at(b, after_tb, 0x7eu8) || after_tb >= b.len() {
            return Err(Error::InvalidKey);
        }
        let (id, after_id) = match read_id(b, after_tb + 1) {
            Some(x) => x,
            None => return Err(Error::InvalidKey),
        };
        let eg = match read_dir(b, after_id) {
            Some(d) => d,
            None => return Err(Error::InvalidKey),
        };
        let (ft, after_ft) = match read_str(b, after_id + 4) {
            Some(x) => x,
            None => return Err(Error::InvalidKey),
        };
        let (fk, after_fk) = match read_id(b, after_ft) {
            Some(x) => x,
            None => return Err(Error::InvalidKey),
        };
        if after_fk != b.len() {
            return Err(Error::InvalidKey);
        }
        Ok(Graph { ns, db, tb, id, eg, ft, fk })
    }
}

} // verus!
