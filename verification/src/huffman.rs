//! Entropy coder: gives every token its codeword of the default table.
//!
//! The table is byte-aligned. Every byte value but `0xFF` stands for itself;
//! `0xFF` opens a longer codeword whose second byte tells a literal `0xFF`,
//! the end of the stream and a match apart. A match is one length class and
//! one distance class: its codeword is followed by eight bits for the length
//! and sixteen for the distance.
//!
//! Only the default table is offered. No table is built from the frequencies
//! of a unit's symbols, and the compression level selects none. A table of
//! its own would have to be sent with each unit, and it would change with
//! the bytes that happen to fall into the unit: the stream of a session would
//! then depend on how the input was cut into slices. With the one table the
//! codewords of a token are the same in every unit, so the slices of a
//! session join to the stream of a single call, and a reader needs no table
//! before it can begin. What this gives up is the shorter codes that a
//! minimum-redundancy table has for frequent symbols: the saving here comes
//! from the matches alone.
use vstd::prelude::*;
use crate::lz77::Token;
use crate::TrickleError;

verus! {

/// Whether the table has a codeword for the token: every literal, and a match
/// of 3 to 258 bytes at a distance of 1 to 65536.
pub open spec fn encodable(t: Token) -> bool {
    match t {
        Token::Literal(_) => true,
        Token::Match { length, distance } => 3 <= length <= 258 && 1 <= distance <= 65536,
    }
}

/// Whether the table has a codeword for each of the tokens.
pub open spec fn all_encodable(tokens: Seq<Token>) -> bool {
    forall|i: int| 0 <= i < tokens.len() ==> encodable(#[trigger] tokens[i])
}

/// The codeword of a token.
pub open spec fn code_of(t: Token) -> Seq<u8> {
    match t {
        Token::Literal(b) => if b == 0xFF {
            seq![0xFFu8, 0x00u8]
        } else {
            seq![b]
        },
        Token::Match { length, distance } => seq![
            0xFFu8,
            0x02u8,
            (length - 3) as u8,
            ((distance - 1) % 256) as u8,
            ((distance - 1) / 256) as u8,
        ],
    }
}

/// The codeword that ends a stream.
pub open spec fn end_code() -> Seq<u8> {
    seq![0xFFu8, 0x01u8]
}

/// The codewords of the tokens, one after the other.
pub open spec fn codes(tokens: Seq<Token>) -> Seq<u8>
    decreases tokens.len(),
{
    if tokens.len() == 0 {
        Seq::empty()
    } else {
        codes(tokens.drop_last()) + code_of(tokens.last())
    }
}

/// Whether `a` is the beginning of `b`.
pub open spec fn is_prefix(a: Seq<u8>, b: Seq<u8>) -> bool {
    a.len() <= b.len() && b.subrange(0, a.len() as int) == a
}

/// The codewords of two runs of tokens are those of the first followed by
/// those of the second.
pub proof fn lemma_codes_concat(a: Seq<Token>, b: Seq<Token>)
    ensures
        codes(a + b) == codes(a) + codes(b),
    decreases b.len(),
{
    if b.len() == 0 {
        assert(a + b =~= a);
        assert(codes(a) + codes(b) =~= codes(a));
    } else {
        lemma_codes_concat(a, b.drop_last());
        assert((a + b).drop_last() =~= a + b.drop_last());
        assert((a + b).last() == b.last());
        assert((codes(a) + codes(b.drop_last())) + code_of(b.last()) =~= codes(a) + (codes(
            b.drop_last(),
        ) + code_of(b.last())));
    }
}

/// The codewords of a run of tokens begin with the codeword of its first token.
pub proof fn lemma_codes_front(tokens: Seq<Token>)
    requires
        tokens.len() > 0,
    ensures
        codes(tokens) == code_of(tokens[0]) + codes(tokens.drop_first()),
{
    let head = seq![tokens[0]];
    assert(head + tokens.drop_first() =~= tokens);
    lemma_codes_concat(head, tokens.drop_first());
    assert(head.drop_last() =~= Seq::<Token>::empty());
    assert(codes(head.drop_last()) =~= Seq::<u8>::empty());
    assert(head.last() == tokens[0]);
    assert(codes(head) =~= code_of(tokens[0]));
}

/// Every codeword has at least one byte, so tokens never code to nothing.
pub proof fn lemma_codes_nonempty(tokens: Seq<Token>)
    requires
        tokens.len() > 0,
    ensures
        codes(tokens).len() > 0,
{
    assert(code_of(tokens.last()).len() > 0);
}

/// The table is a prefix code: the codeword of one token is never the
/// beginning of the codeword of another token, and the end codeword neither
/// begins a token's codeword nor begins with one.
pub proof fn lemma_prefix_free(s: Token, t: Token)
    requires
        encodable(s),
        encodable(t),
    ensures
        is_prefix(code_of(s), code_of(t)) ==> s == t,
        !is_prefix(code_of(s), end_code()),
        !is_prefix(end_code(), code_of(s)),
{
    let a = code_of(s);
    let b = code_of(t);
    let e = end_code();
    if is_prefix(a, e) {
        let head = e.subrange(0, a.len() as int);
        assert(head[0] == a[0]);
        if a.len() >= 2 {
            assert(head[1] == a[1]);
        }
    }
    if is_prefix(e, a) {
        let head = a.subrange(0, e.len() as int);
        assert(head[0] == e[0]);
        assert(head[1] == e[1]);
    }
    if is_prefix(a, b) {
        let head = b.subrange(0, a.len() as int);
        assert(head[0] == a[0]);
        if a.len() >= 2 {
            assert(head[1] == a[1]);
        }
        if a.len() >= 5 {
            assert(head[2] == a[2]);
            assert(head[3] == a[3]);
            assert(head[4] == a[4]);
        }
    }
}

/// Coder with the fixed table.
pub struct HuffmanCoder {}

impl HuffmanCoder {
    /// A coder; the table is fixed, so it holds no state.
    pub fn new() -> (c: Self) {
        HuffmanCoder {  }
    }

    /// One unit: the codewords of the tokens, one after the other, closed by
    /// the end codeword. A unit of no tokens is the end codeword alone. A
    /// match that the table has no codeword for is refused.
    pub fn encode(&self, tokens: &[Token]) -> (r: Result<Vec<u8>, TrickleError>)
        ensures
            all_encodable(tokens@) ==> (r matches Ok(out) && out@ == codes(tokens@) + end_code()),
            !all_encodable(tokens@) ==> r == Err::<Vec<u8>, TrickleError>(TrickleError::InvalidData),
    {
        match self.encode_tokens(tokens) {
            Ok(mut out) => {
                let end = self.end_marker();
                out.extend_from_slice(end.as_slice());
                Ok(out)
            },
            Err(e) => Err(e),
        }
    }

    /// The codewords of the tokens, one after the other, with no end
    /// codeword: the part of a unit that one slice of a session adds. A match
    /// that the table has no codeword for is refused.
    pub fn encode_tokens(&self, tokens: &[Token]) -> (r: Result<Vec<u8>, TrickleError>)
        ensures
            all_encodable(tokens@) ==> (r matches Ok(out) && out@ == codes(tokens@)),
            !all_encodable(tokens@) ==> r == Err::<Vec<u8>, TrickleError>(TrickleError::InvalidData),
    {
        let n: usize = tokens.len();
        let mut out: Vec<u8> = Vec::new();
        let mut i: usize = 0;
        while i < n
            invariant
                n == tokens@.len(),
                i <= n,
                all_encodable(tokens@.subrange(0, i as int)),
                out@ == codes(tokens@.subrange(0, i as int)),
            decreases n - i,
        {
            let ghost done = tokens@.subrange(0, i as int);
            let ghost next = tokens@.subrange(0, i + 1);
            let ghost before = out@;
            assert(next.drop_last() =~= done);
            assert(next.last() == tokens@[i as int]);
            let t: Token = tokens[i];
            match t {
                Token::Literal(b) => {
                    if b == 0xFF {
                        out.push(0xFF);
                        out.push(0x00);
                    } else {
                        out.push(b);
                    }
                },
                Token::Match { length, distance } => {
                    if length < 3 || length > 258 || distance < 1 || distance > 65536 {
                        assert(!encodable(tokens@[i as int]));
                        return Err(TrickleError::InvalidData);
                    }
                    let far: usize = distance - 1;
                    out.push(0xFF);
                    out.push(0x02);
                    out.push((length - 3) as u8);
                    out.push((far % 256) as u8);
                    out.push((far / 256) as u8);
                },
            }
            assert(out@ =~= before + code_of(t));
            assert forall|k: int| 0 <= k < next.len() implies encodable(#[trigger] next[k]) by {
                if k < i {
                    assert(next[k] == done[k]);
                }
            }
            i += 1;
        }
        assert(tokens@.subrange(0, n as int) =~= tokens@);
        Ok(out)
    }

    /// The codeword that ends a stream.
    pub fn end_marker(&self) -> (out: Vec<u8>)
        ensures
            out@ == end_code(),
    {
        let mut out: Vec<u8> = Vec::new();
        out.push(0xFF);
        out.push(0x01);
        assert(out@ =~= end_code());
        out
    }
}

} // verus!
