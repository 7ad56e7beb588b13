//! Lexing of quoted strands: the text between two matching quotes, with
//! backslash escapes resolved.
use vstd::prelude::*;

verus! {

/// The two quote styles a strand may be written in.
#[derive(Clone, Copy, Debug, PartialEq, Eq, Structural)]
pub enum QuoteKind {
    Plain,
    PlainDouble,
}

#[derive(Clone, Copy, Debug, PartialEq, Eq, Structural)]
pub enum TokenKind {
    Quote(QuoteKind),
    Strand,
    Eof,
    Invalid,
}

#[derive(Clone, Copy, Debug, PartialEq, Eq, Structural)]
pub struct Span {
    pub offset: u32,
    pub len: u32,
}

#[derive(Clone, Copy, Debug, PartialEq, Eq, Structural)]
pub struct Token {
    pub kind: TokenKind,
    pub span: Span,
}

/// Why a strand could not be lexed.
#[derive(Clone, Copy, Debug, PartialEq, Eq, Structural)]
pub enum LexError {
    /// A NUL character appeared inside the strand.
    NullByte,
    /// A backslash was followed by a character that is no valid escape;
    /// `quote` is the escapable quote of the strand being lexed.
    InvalidEscape { found: char, quote: char },
}

/// A lexer over already decoded source characters.
pub struct Lexer {
    pub source: Vec<char>,
    /// Position of the next character to read.
    pub pos: usize,
    /// Start of the token being lexed.
    pub last_offset: u32,
    /// The value of the last strand token.
    pub string: Option<String>,
    /// The error behind the last invalid token.
    pub error: Option<LexError>,
}

/// What lexing a strand from a position yields: the value and the position
/// after the closing quote, or where and why it stopped.
pub enum Scan {
    Done(Seq<char>, int),
    Eof,
    Failed(LexError, int),
}

pub open spec fn closing_quote(is_double: bool) -> char {
    if is_double {
        '"'
    } else {
        '\''
    }
}

/// The character that a backslash followed by `c` stands for, if any.
pub open spec fn escaped(c: char, is_double: bool) -> Option<char> {
    if c == '\\' {
        Some('\\')
    } else if c == closing_quote(is_double) {
        Some(c)
    } else if c == '/' {
        Some('/')
    } else if c == 'b' {
        Some('\u{8}')
    } else if c == 'f' {
        Some('\u{c}')
    } else if c == 'n' {
        Some('\n')
    } else if c == 'r' {
        Some('\r')
    } else if c == 't' {
        Some('\t')
    } else {
        None
    }
}

pub open spec fn prefixed(pre: Seq<char>, r: Scan) -> Scan {
    match r {
        Scan::Done(s, end) => Scan::Done(pre + s, end),
        other => other,
    }
}

/// Lexes the strand body that starts at `i`, the opening quote already read.
pub open spec fn scan(src: Seq<char>, i: int, is_double: bool) -> Scan
    decreases src.len() - i,
{
    if i < 0 || i >= src.len() {
        Scan::Eof
    } else {
        let c = src[i];
        if c == closing_quote(is_double) {
            Scan::Done(Seq::empty(), i + 1)
        } else if c == '\0' {
            Scan::Failed(LexError::NullByte, i + 1)
        } else if c == '\\' {
            if i + 1 >= src.len() {
                Scan::Eof
            } else {
                match escaped(src[i + 1], is_double) {
                    Some(e) => prefixed(seq![e], scan(src, i + 2, is_double)),
                    None => Scan::Failed(
                        LexError::InvalidEscape { found: src[i + 1], quote: closing_quote(is_double) },
                        i + 2,
                    ),
                }
            }
        } else {
            prefixed(seq![c], scan(src, i + 1, is_double))
        }
    }
}

proof fn lemma_prefixed_concat(a: Seq<char>, b: Seq<char>, r: Scan)
    ensures
        prefixed(a, prefixed(b, r)) == prefixed(a + b, r),
{
    match r {
        Scan::Done(s, end) => {
            assert(a + (b + s) =~= (a + b) + s);
        },
        _ => {},
    }
}

/// Relies on String::push: appends one character.
#[verifier::external_body]
fn push_char(s: &mut String, c: char)
    ensures
        final(s)@ == old(s)@.push(c),
{
    s.push(c)
}

/// The span of a token from `offset` up to the position `end`.
pub open spec fn span_to(offset: u32, end: int) -> Span {
    Span { offset, len: if end >= offset { (end - offset) as u32 } else { 0 } }
}

impl Lexer {
    /// Builds a lexer positioned at the start of `source`.
    pub fn new(source: &str) -> (r: Lexer)
        ensures
            r.source@ == source@,
            r.pos == 0,
            r.last_offset == 0,
            r.string.is_none(),
            r.error.is_none(),
    {
        let n = source.unicode_len();
        let mut chars: Vec<char> = Vec::new();
        let mut i: usize = 0;
        while i < n
            invariant
                n == source@.len(),
                i <= n,
                chars@ == source@.subrange(0, i as int),
            decreases n - i,
        {
            let c = source.get_char(i);
            chars.push(c);
            i = i + 1;
            assert(chars@ =~= source@.subrange(0, i as int));
        }
        assert(chars@ =~= source@);
        Lexer { source: chars, pos: 0, last_offset: 0, string: None, error: None }
    }

    /// Lexes a strand whose opening quote `token` was already read: the
    /// lexer stands just after it. Escapes `\\`, `\/`, `\b`, `\f`, `\n`,
    /// `\r`, `\t` and the escaped closing quote are resolved. On success the
    /// value is left in `string` and a `Strand` token spanning from the
    /// opening quote is returned.
    pub fn relex_strand(&mut self, token: Token) -> (r: Token)
        requires
            token.kind matches TokenKind::Quote(_),
            old(self).source.len() <= u32::MAX,
            old(self).pos <= old(self).source.len(),
        ensures
            ({
                let is_double = token.kind == TokenKind::Quote(QuoteKind::PlainDouble);
                let src = old(self).source@;
                final(self).source@ == old(self).source@
                && final(self).last_offset == token.span.offset
                && match scan(src, old(self).pos as int, is_double) {
                    Scan::Done(s, end) => {
                        &&& r.kind == TokenKind::Strand
                        &&& final(self).pos == end
                        &&& final(self).string.is_some()
                        &&& final(self).string.unwrap()@ == s
                        &&& final(self).error == old(self).error
                        &&& r.span == span_to(token.span.offset, end)
                    },
                    Scan::Eof => {
                        &&& r.kind == TokenKind::Eof
                        &&& final(self).pos == src.len()
                        &&& final(self).string == old(self).string
                        &&& final(self).error == old(self).error
                    },
                    Scan::Failed(e, end) => {
                        &&& r.kind == TokenKind::Invalid
                        &&& final(self).pos == end
                        &&& final(self).string == old(self).string
                        &&& final(self).error == Some(e)
                    },
                }
            }),
    {
        let is_double = match token.kind {
            TokenKind::Quote(QuoteKind::PlainDouble) => true,
            _ => false,
        };
        let quote: char = if is_double { '"' } else { '\'' };
        self.last_offset = token.span.offset;
        let ghost src = self.source@;
        let ghost start = self.pos as int;
        let mut scratch = String::new();
        let n = self.source.len();
        loop
            invariant
                self.source@ == src,
                src == old(self).source@,
                start == old(self).pos,
                n == src.len(),
                n <= u32::MAX,
                start <= self.pos <= n,
                self.last_offset == token.span.offset,
                self.string == old(self).string,
                self.error == old(self).error,
                quote == closing_quote(is_double),
                is_double == (token.kind == TokenKind::Quote(QuoteKind::PlainDouble)),
                scan(src, start, is_double) == prefixed(scratch@, scan(src, self.pos as int, is_double)),
            decreases n - self.pos,
        {
            let ghost before = scratch@;
            let ghost at0 = self.pos as int;
            if self.pos >= n {
                assert(scan(src, at0, is_double) == Scan::Eof);
                return Token { kind: TokenKind::Eof, span: Span { offset: self.last_offset, len: 0 } };
            }
            let x = self.source[self.pos];
            self.pos = self.pos + 1;
            if x == quote {
                let end = self.pos;
                assert(scan(src, at0, is_double) == Scan::Done(Seq::empty(), at0 + 1));
                assert(before + Seq::<char>::empty() =~= before);
                self.string = Some(scratch);
                let len: u32 = if end as u32 >= self.last_offset { end as u32 - self.last_offset } else { 0 };
                return Token { kind: TokenKind::Strand, span: Span { offset: self.last_offset, len } };
            } else if x == '\0' {
                assert(scan(src, at0, is_double) == Scan::Failed(LexError::NullByte, at0 + 1));
                self.error = Some(LexError::NullByte);
                return Token { kind: TokenKind::Invalid, span: Span { offset: self.last_offset, len: 0 } };
            } else if x == '\\' {
                if self.pos >= n {
                    assert(scan(src, at0, is_double) == Scan::Eof);
                    return Token { kind: TokenKind::Eof, span: Span { offset: self.last_offset, len: 0 } };
                }
                let next = self.source[self.pos];
                self.pos = self.pos + 1;
                let e: Option<char> = if next == '\\' {
                    Some('\\')
                } else if next == quote {
                    Some(quote)
                } else if next == '/' {
                    Some('/')
                } else if next == 'b' {
                    Some('\u{8}')
                } else if next == 'f' {
                    Some('\u{c}')
                } else if next == 'n' {
                    Some('\n')
                } else if next == 'r' {
                    Some('\r')
                } else if next == 't' {
                    Some('\t')
                } else {
                    None
                };
                match e {
                    Some(c) => {
                        assert(escaped(next, is_double) == Some(c));
                        assert(scan(src, at0, is_double) == prefixed(seq![c], scan(src, at0 + 2, is_double)));
                        proof {
                            lemma_prefixed_concat(before, seq![c], scan(src, self.pos as int, is_double));
                        }
                        push_char(&mut scratch, c);
                        assert(scratch@ =~= before + seq![c]);
                    },
                    None => {
                        assert(escaped(next, is_double).is_none());
                        self.error = Some(LexError::InvalidEscape { found: next, quote });
                        return Token { kind: TokenKind::Invalid, span: Span { offset: self.last_offset, len: 0 } };
                    },
                }
            } else {
                assert(scan(src, at0, is_double) == prefixed(seq![x], scan(src, at0 + 1, is_double)));
                proof {
                    lemma_prefixed_concat(before, seq![x], scan(src, self.pos as int, is_double));
                }
                push_char(&mut scratch, x);
                assert(scratch@ =~= before + seq![x]);
            }
        }
    }
}

} // verus!
