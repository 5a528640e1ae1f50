//! Match finder: turns bytes into literals and back-references into a sliding
//! window of the bytes that came before.
//!
//! At each position the distances `1..=reach` are probed, nearest first, for
//! the longest run that repeats there; `reach` is bounded by the window, by
//! the number of probes and by what a codeword holds. A run of three bytes or
//! more becomes a match, unless the next position offers a longer one: then
//! the byte becomes a literal and the longer match follows.
//!
//! `encode` gives every position of a slice its token and looks no farther
//! than the end of the slice. The session's pipeline works in another way on
//! the same rules: it lets the newest bytes of a slice wait, as many as the
//! longest match has, until more bytes or the end of the session settle
//! their tokens, so that the stream does not depend on how the input
//! arrives. `ready_tokens` states both: with nothing held back it is
//! `tokens_from`.
use vstd::prelude::*;
use crate::TrickleError;

verus! {

/// The shortest run that is worth a back-reference.
pub const MIN_MATCH: usize = 3;

/// The longest run that a codeword can hold.
pub const MAX_MATCH: usize = 258;

/// The farthest distance that a codeword can hold.
pub const MAX_DISTANCE: usize = 65536;

/// One step of the compressed content: a byte as it is, or `length` bytes
/// that repeat what stands `distance` bytes back.
#[derive(Debug, Clone, Copy, PartialEq, Eq, Structural)]
pub enum Token {
    Literal(u8),
    Match { length: usize, distance: usize },
}

/// How many bytes from `pos` on repeat the bytes `dist` before them, counted
/// up to `limit` and up to the end of `buf`.
pub open spec fn run_length(buf: Seq<u8>, pos: int, dist: int, limit: nat) -> nat
    decreases limit,
{
    if limit == 0 || pos >= buf.len() || pos - dist < 0 || buf[pos - dist] != buf[pos] {
        0
    } else {
        1 + run_length(buf, pos + 1, dist, (limit - 1) as nat)
    }
}

/// The longest run among the distances `1..=d`, as (length, distance); of two
/// runs of one length the nearer, and (0, 0) where nothing repeats.
pub open spec fn best_within(buf: Seq<u8>, pos: int, d: nat, limit: nat) -> (nat, nat)
    decreases d,
{
    if d == 0 {
        (0, 0)
    } else {
        let nearer = best_within(buf, pos, (d - 1) as nat, limit);
        let here = run_length(buf, pos, d as int, limit);
        if here > nearer.0 {
            (here, d)
        } else {
            nearer
        }
    }
}

/// The match token for a length and a distance.
pub open spec fn match_token(length: nat, distance: nat) -> Token {
    Token::Match {
        length: #[verifier::truncate] (length as usize),
        distance: #[verifier::truncate] (distance as usize),
    }
}

/// The match finder as a value: its three limits, the window of bytes that
/// have their tokens, and the bytes behind them that wait for theirs.
pub struct Lz77View {
    pub window_size: nat,
    pub max_lazy_match: nat,
    pub max_chain_length: nat,
    pub window: Seq<u8>,
    pub pending: Seq<u8>,
}

impl Lz77View {
    /// The window holds no more than its capacity, and no more bytes wait
    /// than the longest match has.
    pub open spec fn wf(self) -> bool {
        self.window.len() <= self.window_size && self.pending.len() <= self.length_cap()
    }

    /// The longest match that is looked for.
    pub open spec fn length_cap(self) -> nat {
        if self.max_lazy_match < MAX_MATCH {
            self.max_lazy_match
        } else {
            MAX_MATCH as nat
        }
    }

    /// How far back a match may point when `behind` bytes came before: not
    /// past the first of them, the window's capacity, the number of probes, or
    /// what a codeword holds.
    pub open spec fn reach(self, behind: int) -> nat {
        let a: int = if behind < self.window_size { behind } else { self.window_size as int };
        let b: int = if a < self.max_chain_length { a } else { self.max_chain_length as int };
        let c: int = if b < MAX_DISTANCE { b } else { MAX_DISTANCE as int };
        if c < 0 { 0 } else { c as nat }
    }

    /// The best match at `pos` of `buf`.
    pub open spec fn best_at(self, buf: Seq<u8>, pos: int) -> (nat, nat) {
        best_within(buf, pos, self.reach(pos), self.length_cap())
    }

    /// Whether a match of `len` bytes at `pos` gives way to a literal: the
    /// next position offers a longer match.
    pub open spec fn defers(self, buf: Seq<u8>, pos: int, len: nat) -> bool {
        pos + 1 < buf.len() && self.best_at(buf, pos + 1).0 > len
    }

    /// The bytes that the match finder works on when `input` arrives: the
    /// window, the bytes that wait, and the input.
    pub open spec fn buffer(self, input: Seq<u8>) -> Seq<u8> {
        self.window + (self.pending + input)
    }

    /// How many bytes are held back at the end of a slice: none at the end
    /// of the session, else as many as the longest match has, so that what
    /// follows cannot change a token that was emitted.
    pub open spec fn hold(self, finish: bool) -> nat {
        if finish {
            0
        } else {
            self.length_cap()
        }
    }

    /// The tokens that a slice brings out.
    pub open spec fn tokens_of(self, input: Seq<u8>, finish: bool) -> Seq<Token> {
        ready_tokens(self, self.buffer(input), self.window.len() as int, self.hold(finish))
    }

    /// The match finder after `taken` bytes of `work` got their tokens: the
    /// window keeps the newest of them, up to its capacity, and the rest of
    /// `work` waits.
    pub open spec fn moved(self, work: Seq<u8>, taken: int) -> Lz77View {
        Lz77View {
            window: newest(self.window + work.subrange(0, taken), self.window_size),
            pending: work.subrange(taken, work.len() as int),
            ..self
        }
    }

    /// The match finder after a slice.
    pub open spec fn after(self, input: Seq<u8>, finish: bool) -> Lz77View {
        let stop = ready_stop(self, self.buffer(input), self.window.len() as int, self.hold(finish));
        self.moved(self.pending + input, stop - self.window.len())
    }
}

/// The tokens for `buf` from `pos` to its end: at each position the best
/// match, if it has three bytes or more and does not give way, else the byte.
pub open spec fn tokens_from(v: Lz77View, buf: Seq<u8>, pos: int) -> Seq<Token>
    decreases buf.len() - pos,
    via tokens_from_decreases
{
    if pos < 0 || pos >= buf.len() {
        Seq::empty()
    } else {
        let m = v.best_at(buf, pos);
        if m.0 >= 3 && !v.defers(buf, pos, m.0) {
            seq![match_token(m.0, m.1)] + tokens_from(v, buf, pos + m.0)
        } else {
            seq![Token::Literal(buf[pos])] + tokens_from(v, buf, pos + 1)
        }
    }
}

#[via_fn]
proof fn tokens_from_decreases(v: Lz77View, buf: Seq<u8>, pos: int) {
    if 0 <= pos < buf.len() {
        lemma_best_within_bounds(buf, pos, v.reach(pos), v.length_cap());
    }
}

/// The tokens for `buf` from `pos` on, as far as they can be told while the
/// last `hold` bytes are held back: a position gets its token only while
/// more than `hold` bytes follow.
pub open spec fn ready_tokens(v: Lz77View, buf: Seq<u8>, pos: int, hold: nat) -> Seq<Token>
    decreases buf.len() - pos,
    via ready_tokens_decreases
{
    if pos < 0 || buf.len() - pos <= hold {
        Seq::empty()
    } else {
        let m = v.best_at(buf, pos);
        if m.0 >= 3 && !v.defers(buf, pos, m.0) {
            seq![match_token(m.0, m.1)] + ready_tokens(v, buf, pos + m.0, hold)
        } else {
            seq![Token::Literal(buf[pos])] + ready_tokens(v, buf, pos + 1, hold)
        }
    }
}

#[via_fn]
proof fn ready_tokens_decreases(v: Lz77View, buf: Seq<u8>, pos: int, hold: nat) {
    if 0 <= pos < buf.len() {
        lemma_best_within_bounds(buf, pos, v.reach(pos), v.length_cap());
    }
}

/// The position behind the last token of `ready_tokens`.
pub open spec fn ready_stop(v: Lz77View, buf: Seq<u8>, pos: int, hold: nat) -> int
    decreases buf.len() - pos,
    via ready_stop_decreases
{
    if pos < 0 || buf.len() - pos <= hold {
        pos
    } else {
        let m = v.best_at(buf, pos);
        if m.0 >= 3 && !v.defers(buf, pos, m.0) {
            ready_stop(v, buf, pos + m.0, hold)
        } else {
            ready_stop(v, buf, pos + 1, hold)
        }
    }
}

#[via_fn]
proof fn ready_stop_decreases(v: Lz77View, buf: Seq<u8>, pos: int, hold: nat) {
    if 0 <= pos < buf.len() {
        lemma_best_within_bounds(buf, pos, v.reach(pos), v.length_cap());
    }
}

/// The tokens stop within the buffer, no more than `hold` bytes before its end.
pub proof fn lemma_ready_stop_bounds(v: Lz77View, buf: Seq<u8>, pos: int, hold: nat)
    requires
        0 <= pos <= buf.len(),
    ensures
        pos <= ready_stop(v, buf, pos, hold) <= buf.len(),
        buf.len() - ready_stop(v, buf, pos, hold) <= hold || ready_stop(v, buf, pos, hold) == pos,
        buf.len() - pos > hold ==> buf.len() - ready_stop(v, buf, pos, hold) <= hold,
    decreases buf.len() - pos,
{
    if buf.len() - pos > hold {
        lemma_best_within_bounds(buf, pos, v.reach(pos), v.length_cap());
        let m = v.best_at(buf, pos);
        if m.0 >= 3 && !v.defers(buf, pos, m.0) {
            lemma_ready_stop_bounds(v, buf, pos + m.0, hold);
        } else {
            lemma_ready_stop_bounds(v, buf, pos + 1, hold);
        }
    }
}

/// With nothing held back the tokens run to the end of the buffer.
pub proof fn lemma_ready_all(v: Lz77View, buf: Seq<u8>, pos: int)
    requires
        0 <= pos <= buf.len(),
    ensures
        ready_tokens(v, buf, pos, 0) == tokens_from(v, buf, pos),
        ready_stop(v, buf, pos, 0) == buf.len(),
    decreases buf.len() - pos,
{
    if pos < buf.len() {
        lemma_best_within_bounds(buf, pos, v.reach(pos), v.length_cap());
        let m = v.best_at(buf, pos);
        if m.0 >= 3 && !v.defers(buf, pos, m.0) {
            lemma_ready_all(v, buf, pos + m.0);
        } else {
            lemma_ready_all(v, buf, pos + 1);
        }
    }
}

/// The tokens with less held back are the tokens with more held back,
/// followed by the tokens from where those stop.
pub proof fn lemma_ready_split(v: Lz77View, buf: Seq<u8>, pos: int, more: nat, less: nat)
    requires
        0 <= pos <= buf.len(),
        less <= more,
    ensures
        ready_tokens(v, buf, pos, less) == ready_tokens(v, buf, pos, more) + ready_tokens(
            v,
            buf,
            ready_stop(v, buf, pos, more),
            less,
        ),
        ready_stop(v, buf, pos, less) == ready_stop(v, buf, ready_stop(v, buf, pos, more), less),
    decreases buf.len() - pos,
{
    if buf.len() - pos > more {
        lemma_best_within_bounds(buf, pos, v.reach(pos), v.length_cap());
        let m = v.best_at(buf, pos);
        let step: int = if m.0 >= 3 && !v.defers(buf, pos, m.0) { m.0 as int } else { 1 };
        lemma_ready_split(v, buf, pos + step, more, less);
        let stop = ready_stop(v, buf, pos, more);
        assert(ready_tokens(v, buf, pos, less) =~= ready_tokens(v, buf, pos, more) + ready_tokens(
            v,
            buf,
            stop,
            less,
        ));
    } else {
        assert(ready_tokens(v, buf, pos, more) =~= Seq::<Token>::empty());
        assert(ready_tokens(v, buf, pos, less) =~= Seq::<Token>::empty() + ready_tokens(v, buf, pos, less));
    }
}

/// Every token that is told while bytes are held back keeps its limits.
pub proof fn lemma_ready_valid(v: Lz77View, buf: Seq<u8>, pos: int, hold: nat)
    requires
        0 <= pos <= buf.len(),
    ensures
        forall|i: int|
            0 <= i < ready_tokens(v, buf, pos, hold).len() ==> token_valid(
                v,
                #[trigger] ready_tokens(v, buf, pos, hold)[i],
            ),
    decreases buf.len() - pos,
{
    if buf.len() - pos > hold {
        let m = v.best_at(buf, pos);
        lemma_best_within_bounds(buf, pos, v.reach(pos), v.length_cap());
        let all = ready_tokens(v, buf, pos, hold);
        let step: int = if m.0 >= 3 && !v.defers(buf, pos, m.0) { m.0 as int } else { 1 };
        lemma_ready_valid(v, buf, pos + step, hold);
        let rest = ready_tokens(v, buf, pos + step, hold);
        if step > 1 {
            assert(token_valid(v, match_token(m.0, m.1)));
        }
        assert forall|i: int| 0 <= i < all.len() implies token_valid(v, #[trigger] all[i]) by {
            if i > 0 {
                assert(all[i] == rest[i - 1]);
            }
        }
    }
}

/// A run is no longer than its limit and ends before the buffer does.
pub proof fn lemma_run_length_bounds(buf: Seq<u8>, pos: int, dist: int, limit: nat)
    requires
        0 <= pos <= buf.len(),
    ensures
        run_length(buf, pos, dist, limit) <= limit,
        pos + run_length(buf, pos, dist, limit) <= buf.len(),
    decreases limit,
{
    if limit == 0 || pos >= buf.len() || pos - dist < 0 || buf[pos - dist] != buf[pos] {
    } else {
        lemma_run_length_bounds(buf, pos + 1, dist, (limit - 1) as nat);
    }
}

/// A run is a repeat, and it is the whole of it: each of its bytes equals the
/// byte `dist` places before it, and it ends at the limit, at the end of the
/// buffer, or before a byte that differs.
pub proof fn lemma_run_length_is_repeat(buf: Seq<u8>, pos: int, dist: int, limit: nat)
    requires
        0 <= pos <= buf.len(),
        1 <= dist <= pos,
    ensures
        forall|k: int|
            0 <= k < run_length(buf, pos, dist, limit) ==> #[trigger] buf[pos + k] == buf[pos + k - dist],
        ({
            let n = run_length(buf, pos, dist, limit);
            n == limit || pos + n == buf.len() || buf[pos + n] != buf[pos + n - dist]
        }),
    decreases limit,
{
    if limit == 0 || pos >= buf.len() || buf[pos - dist] != buf[pos] {
    } else {
        lemma_run_length_is_repeat(buf, pos + 1, dist, (limit - 1) as nat);
        let n = run_length(buf, pos, dist, limit);
        assert forall|k: int| 0 <= k < n implies #[trigger] buf[pos + k] == buf[pos + k - dist] by {
            if k > 0 {
                assert(buf[pos + 1 + (k - 1)] == buf[pos + 1 + (k - 1) - dist]);
            }
        }
    }
}

/// The best match is the longest run among the distances asked for, and of
/// the longest the nearest.
pub proof fn lemma_best_within_is_longest(buf: Seq<u8>, pos: int, d: nat, limit: nat)
    ensures
        forall|e: int|
            1 <= e <= d ==> #[trigger] run_length(buf, pos, e, limit) <= best_within(buf, pos, d, limit).0,
        forall|e: int|
            1 <= e < best_within(buf, pos, d, limit).1 ==> #[trigger] run_length(buf, pos, e, limit)
                < best_within(buf, pos, d, limit).0,
    decreases d,
{
    if d > 0 {
        lemma_best_within_is_longest(buf, pos, (d - 1) as nat, limit);
    }
}

/// The best match is a run of one of the distances asked for.
pub proof fn lemma_best_within_bounds(buf: Seq<u8>, pos: int, d: nat, limit: nat)
    requires
        0 <= pos <= buf.len(),
    ensures
        ({
            let m = best_within(buf, pos, d, limit);
            &&& m.0 <= limit
            &&& pos + m.0 <= buf.len()
            &&& m.0 > 0 ==> 1 <= m.1 <= d && m.0 == run_length(buf, pos, m.1 as int, limit)
            &&& m.0 == 0 ==> m.1 == 0
        }),
    decreases d,
{
    if d > 0 {
        lemma_best_within_bounds(buf, pos, (d - 1) as nat, limit);
        lemma_run_length_bounds(buf, pos, d as int, limit);
    }
}

/// Whether a token keeps the limits of the match finder: a match has three
/// bytes or more and no more than the configured and the coded maximum, and
/// points back at least one byte and no farther than the window's capacity,
/// the number of probes and what a codeword holds.
pub open spec fn token_valid(v: Lz77View, t: Token) -> bool {
    match t {
        Token::Literal(_) => true,
        Token::Match { length, distance } => {
            &&& 3 <= length <= v.max_lazy_match
            &&& length <= MAX_MATCH
            &&& 1 <= distance <= v.window_size
            &&& distance <= v.max_chain_length
            &&& distance <= MAX_DISTANCE
        },
    }
}

/// The bytes that a token stands for.
pub open spec fn token_span(t: Token) -> nat {
    match t {
        Token::Literal(_) => 1,
        Token::Match { length, distance } => length as nat,
    }
}

/// Whether each match among `tokens` points into the window as it is when the
/// match is reached: at least one byte back, no farther than the bytes that came before it,
/// `behind` at the first token, and no farther than the window's capacity.
pub open spec fn in_window(v: Lz77View, behind: nat, tokens: Seq<Token>) -> bool
    decreases tokens.len(),
{
    if tokens.len() == 0 {
        true
    } else {
        &&& match tokens[0] {
            Token::Literal(_) => true,
            Token::Match { length, distance } => 1 <= distance <= behind && distance <= v.window_size,
        }
        &&& in_window(v, behind + token_span(tokens[0]), tokens.drop_first())
    }
}

/// `data` with `len` more bytes, each a copy of the byte `dist` places before it.
pub open spec fn copy_back(data: Seq<u8>, dist: nat, len: nat) -> Seq<u8>
    decreases len,
{
    if len == 0 || dist == 0 || dist > data.len() {
        data
    } else {
        copy_back(data.push(data[data.len() - dist]), dist, (len - 1) as nat)
    }
}

/// `data` with the bytes that a token stands for.
pub open spec fn expand_token(data: Seq<u8>, t: Token) -> Seq<u8> {
    match t {
        Token::Literal(b) => data.push(b),
        Token::Match { length, distance } => copy_back(data, distance as nat, length as nat),
    }
}

/// `data` with the bytes that the tokens stand for, in their order.
pub open spec fn expand(data: Seq<u8>, tokens: Seq<Token>) -> Seq<u8>
    decreases tokens.len(),
{
    if tokens.len() == 0 {
        data
    } else {
        expand(expand_token(data, tokens[0]), tokens.drop_first())
    }
}

/// Every token of a buffer keeps its limits.
pub proof fn lemma_tokens_valid(v: Lz77View, buf: Seq<u8>, pos: int)
    requires
        0 <= pos <= buf.len(),
    ensures
        forall|i: int|
            0 <= i < tokens_from(v, buf, pos).len() ==> token_valid(v, #[trigger] tokens_from(v, buf, pos)[i]),
{
    lemma_ready_valid(v, buf, pos, 0);
    lemma_ready_all(v, buf, pos);
}

/// Copying a run back gives the bytes of the run.
pub proof fn lemma_copy_run(buf: Seq<u8>, pos: int, dist: nat, limit: nat, len: nat)
    requires
        0 <= pos <= buf.len(),
        1 <= dist <= pos,
        len <= run_length(buf, pos, dist as int, limit),
    ensures
        pos + len <= buf.len(),
        copy_back(buf.subrange(0, pos), dist, len) == buf.subrange(0, pos + len),
    decreases len,
{
    if len > 0 {
        let data = buf.subrange(0, pos);
        assert(data.push(data[data.len() - dist]) =~= buf.subrange(0, pos + 1));
        lemma_copy_run(buf, pos + 1, dist, (limit - 1) as nat, (len - 1) as nat);
    }
}

/// The tokens that the match finder emits for a buffer give the buffer back,
/// and each match among them points into the window as it then is.
pub proof fn lemma_tokens_expand(v: Lz77View, buf: Seq<u8>, pos: int)
    requires
        0 <= pos <= buf.len(),
    ensures
        expand(buf.subrange(0, pos), tokens_from(v, buf, pos)) == buf,
        in_window(v, pos as nat, tokens_from(v, buf, pos)),
    decreases buf.len() - pos,
{
    if pos < buf.len() {
        let m = v.best_at(buf, pos);
        lemma_best_within_bounds(buf, pos, v.reach(pos), v.length_cap());
        let all = tokens_from(v, buf, pos);
        if m.0 >= 3 && !v.defers(buf, pos, m.0) {
            let rest = tokens_from(v, buf, pos + m.0);
            assert(all.drop_first() =~= rest);
            lemma_copy_run(buf, pos, m.1, v.length_cap(), m.0);
            lemma_tokens_expand(v, buf, pos + m.0);
        } else {
            let rest = tokens_from(v, buf, pos + 1);
            assert(all.drop_first() =~= rest);
            assert(buf.subrange(0, pos).push(buf[pos]) =~= buf.subrange(0, pos + 1));
            lemma_tokens_expand(v, buf, pos + 1);
        }
    } else {
        assert(buf.subrange(0, pos) =~= buf);
    }
}

/// The newest `size` bytes of `all`, in their order; all of them where they
/// are no more than `size`.
pub open spec fn newest(all: Seq<u8>, size: nat) -> Seq<u8> {
    let from: int = if all.len() > size { all.len() - size } else { 0 };
    all.subrange(from, all.len() as int)
}

/// The newest bytes are as many as there is room for.
pub proof fn lemma_newest_len(all: Seq<u8>, size: nat)
    ensures
        newest(all, size).len() == (if all.len() <= size { all.len() } else { size }),
        all.len() <= size ==> newest(all, size) == all,
{
    if all.len() <= size {
        assert(all.subrange(0, all.len() as int) =~= all);
    }
}

/// Each byte as a literal.
pub open spec fn literals(bytes: Seq<u8>) -> Seq<Token> {
    Seq::new(bytes.len(), |i: int| Token::Literal(bytes[i]))
}

/// With no window or no probes every byte becomes a literal.
pub proof fn lemma_literal_only(v: Lz77View, buf: Seq<u8>, pos: int)
    requires
        v.window_size == 0 || v.max_chain_length == 0,
        0 <= pos <= buf.len(),
    ensures
        tokens_from(v, buf, pos) == literals(buf.subrange(pos, buf.len() as int)),
    decreases buf.len() - pos,
{
    if pos < buf.len() {
        assert(v.reach(pos) == 0);
        assert(v.best_at(buf, pos) == (0nat, 0nat));
        lemma_literal_only(v, buf, pos + 1);
    }
    assert(tokens_from(v, buf, pos) =~= literals(buf.subrange(pos, buf.len() as int)));
}

/// Sliding-window match finder.
pub struct Lz77Encoder {
    window_size: usize,
    max_lazy_match: usize,
    max_chain_length: usize,
    window: Vec<u8>,
    pending: Vec<u8>,
}

impl View for Lz77Encoder {
    type V = Lz77View;

    closed spec fn view(&self) -> Lz77View {
        Lz77View {
            window_size: self.window_size as nat,
            max_lazy_match: self.max_lazy_match as nat,
            max_chain_length: self.max_chain_length as nat,
            window: self.window@,
            pending: self.pending@,
        }
    }
}

impl Lz77Encoder {
    /// A match finder with an empty window and nothing waiting.
    pub fn new(window_size: usize, max_lazy_match: usize, max_chain_length: usize) -> (e: Self)
        ensures
            e@.wf(),
            e@ == (Lz77View {
                window_size: window_size as nat,
                max_lazy_match: max_lazy_match as nat,
                max_chain_length: max_chain_length as nat,
                window: Seq::empty(),
                pending: Seq::empty(),
            }),
    {
        Lz77Encoder {
            window_size,
            max_lazy_match,
            max_chain_length,
            window: Vec::new(),
            pending: Vec::new(),
        }
    }

    /// How many bytes are held back at the end of a slice.
    pub(crate) fn hold(&self, finish: bool) -> (h: usize)
        ensures
            h == self@.hold(finish),
    {
        if finish {
            0
        } else if self.max_lazy_match < MAX_MATCH {
            self.max_lazy_match
        } else {
            MAX_MATCH
        }
    }

    /// The bytes that wait, followed by `input`.
    pub(crate) fn gather(&self, input: &[u8]) -> (work: Vec<u8>)
        ensures
            work@ == self@.pending + input@,
    {
        let mut work: Vec<u8> = Vec::new();
        let mut k: usize = 0;
        while k < self.pending.len()
            invariant
                k <= self.pending@.len(),
                work@ =~= self.pending@.subrange(0, k as int),
            decreases self.pending@.len() - k,
        {
            work.push(self.pending[k]);
            k += 1;
        }
        let ghost kept = work@;
        let mut j: usize = 0;
        while j < input.len()
            invariant
                j <= input@.len(),
                kept == self.pending@,
                work@ =~= kept + input@.subrange(0, j as int),
            decreases input@.len() - j,
        {
            work.push(input[j]);
            j += 1;
        }
        assert(work@ =~= self@.pending + input@);
        work
    }

    /// The byte that stands `back` places before place `i` of `input`, in
    /// the window where that is before the input's start.
    fn byte_behind(&self, input: &[u8], i: usize, back: usize) -> (b: u8)
        requires
            i < input@.len(),
            back <= self@.window.len() + i,
        ensures
            b == (self@.window + input@)[self@.window.len() + i - back],
    {
        if back <= i {
            input[i - back]
        } else {
            let into: usize = back - i;
            self.window[self.window.len() - into]
        }
    }

    /// The run at place `i` of `input` for one distance.
    fn run_at(&self, input: &[u8], i: usize, dist: usize, limit: usize) -> (len: usize)
        requires
            i <= input@.len(),
            1 <= dist <= self@.window.len() + i,
        ensures
            len == run_length(self@.window + input@, self@.window.len() + i, dist as int, limit as nat),
    {
        let ghost buf = self@.window + input@;
        let ghost pos = self@.window.len() + i;
        let n: usize = input.len();
        let room: usize = n - i;
        let mut k: usize = 0;
        let mut going: bool = true;
        while going && k < limit && k < room
            invariant
                i <= input@.len(),
                n == input@.len(),
                i + room == n,
                1 <= dist <= self@.window.len() + i,
                buf == self@.window + input@,
                pos == self@.window.len() + i,
                k <= limit,
                k <= room,
                run_length(buf, pos, dist as int, limit as nat) == k + run_length(
                    buf,
                    pos + k,
                    dist as int,
                    (limit - k) as nat,
                ),
                !going ==> run_length(buf, pos + k, dist as int, (limit - k) as nat) == 0,
            decreases (if going { 1int } else { 0int }) + limit - k,
        {
            let behind: u8 = self.byte_behind(input, i + k, dist);
            if behind == input[i + k] {
                k += 1;
            } else {
                going = false;
            }
        }
        k
    }

    /// The best match at place `i` of `input`, as (length, distance).
    fn best_match(&self, input: &[u8], i: usize) -> (m: (usize, usize))
        requires
            i <= input@.len(),
        ensures
            (m.0 as nat, m.1 as nat) == self@.best_at(self@.window + input@, self@.window.len() + i),
            m.0 <= MAX_MATCH,
            m.1 <= MAX_DISTANCE,
            m.0 <= input@.len() - i,
    {
        let ghost buf = self@.window + input@;
        let ghost pos = self@.window.len() + i;
        let limit: usize = if self.max_lazy_match < MAX_MATCH { self.max_lazy_match } else { MAX_MATCH };
        let mut reach: usize = if self.window_size < self.max_chain_length {
            self.window_size
        } else {
            self.max_chain_length
        };
        if reach > MAX_DISTANCE {
            reach = MAX_DISTANCE;
        }
        if i < reach {
            let beyond: usize = reach - i;
            if self.window.len() < beyond {
                reach = self.window.len() + i;
            }
        }
        assert(reach == self@.reach(pos));
        let mut best: (usize, usize) = (0, 0);
        let mut d: usize = 1;
        while d <= reach
            invariant
                i <= input@.len(),
                buf == self@.window + input@,
                pos == self@.window.len() + i,
                reach <= MAX_DISTANCE,
                reach <= pos,
                1 <= d <= reach + 1,
                (best.0 as nat, best.1 as nat) == best_within(buf, pos, (d - 1) as nat, limit as nat),
                best.0 <= limit,
                best.1 <= reach,
            decreases reach + 1 - d,
        {
            let here: usize = self.run_at(input, i, d, limit);
            proof {
                lemma_run_length_bounds(buf, pos, d as int, limit as nat);
            }
            if here > best.0 {
                best = (here, d);
            }
            d += 1;
        }
        proof {
            lemma_best_within_bounds(buf, pos, reach as nat, limit as nat);
        }
        best
    }

    /// The tokens for `work` as far as they can be told while `hold` bytes
    /// are held back, and the number of bytes that they stand for. The match
    /// finder stays as it is.
    pub(crate) fn scan(&self, work: &[u8], hold: usize) -> (r: (Vec<Token>, usize))
        ensures
            r.0@ == ready_tokens(self@, self@.window + work@, self@.window.len() as int, hold as nat),
            self@.window.len() + r.1 == ready_stop(
                self@,
                self@.window + work@,
                self@.window.len() as int,
                hold as nat,
            ),
            r.1 <= work@.len(),
            work@.len() - r.1 <= hold,
            forall|i: int| 0 <= i < r.0@.len() ==> token_valid(self@, #[trigger] r.0@[i]),
    {
        let ghost buf = self@.window + work@;
        let ghost start = self@.window.len() as int;
        let n: usize = work.len();
        let mut tokens: Vec<Token> = Vec::new();
        let mut i: usize = 0;
        while n - i > hold
            invariant
                n == work@.len(),
                i <= n,
                buf == self@.window + work@,
                start == self@.window.len(),
                tokens@ + ready_tokens(self@, buf, start + i, hold as nat) == ready_tokens(
                    self@,
                    buf,
                    start,
                    hold as nat,
                ),
                ready_stop(self@, buf, start + i, hold as nat) == ready_stop(self@, buf, start, hold as nat),
            decreases n - i,
        {
            let ghost before = tokens@;
            let m: (usize, usize) = self.best_match(work, i);
            let mut take: bool = m.0 >= MIN_MATCH;
            if take && i + 1 < n {
                let next: (usize, usize) = self.best_match(work, i + 1);
                if next.0 > m.0 {
                    take = false;
                }
            }
            assert(take == (m.0 >= MIN_MATCH && !self@.defers(buf, start + i, m.0 as nat)));
            if take {
                let t = Token::Match { length: m.0, distance: m.1 };
                tokens.push(t);
                proof {
                    let rest = ready_tokens(self@, buf, start + i + m.0, hold as nat);
                    assert(before.push(t) + rest =~= before + (seq![t] + rest));
                }
                i += m.0;
            } else {
                let t = Token::Literal(work[i]);
                tokens.push(t);
                proof {
                    let rest = ready_tokens(self@, buf, start + i + 1, hold as nat);
                    assert(before.push(t) + rest =~= before + (seq![t] + rest));
                }
                i += 1;
            }
        }
        assert(tokens@ + Seq::<Token>::empty() =~= tokens@);
        proof {
            lemma_ready_valid(self@, buf, start, hold as nat);
        }
        (tokens, i)
    }

    /// Moves the first `taken` bytes of `work` into the window, drops the
    /// oldest bytes beyond its capacity, and lets the rest of `work` wait.
    pub(crate) fn commit(&mut self, work: &[u8], taken: usize)
        requires
            taken <= work@.len(),
        ensures
            final(self)@ == old(self)@.moved(work@, taken as int),
            final(self)@.window.len() <= final(self)@.window_size,
    {
        let n: usize = work.len();
        let w: usize = self.window.len();
        let size: usize = self.window_size;
        let mut next: Vec<u8> = Vec::new();
        let mut skip: usize = 0;
        if taken < size {
            let room: usize = size - taken;
            let from: usize = if w > room { w - room } else { 0 };
            let mut k: usize = from;
            while k < w
                invariant
                    from <= k <= w,
                    w == self.window@.len(),
                    next@ =~= self.window@.subrange(from as int, k as int),
                decreases w - k,
            {
                next.push(self.window[k]);
                k += 1;
            }
        } else {
            skip = taken - size;
        }
        let ghost kept = next@;
        let mut j: usize = skip;
        while j < taken
            invariant
                skip <= j <= taken,
                taken <= work@.len(),
                next@ =~= kept + work@.subrange(skip as int, j as int),
            decreases taken - j,
        {
            next.push(work[j]);
            j += 1;
        }
        let mut rest: Vec<u8> = Vec::new();
        let mut r: usize = taken;
        while r < n
            invariant
                taken <= r <= n,
                n == work@.len(),
                rest@ =~= work@.subrange(taken as int, r as int),
            decreases n - r,
        {
            rest.push(work[r]);
            r += 1;
        }
        assert(next@ =~= old(self)@.moved(work@, taken as int).window);
        self.window = next;
        self.pending = rest;
    }

    /// Turns a slice into tokens, one for every position of it, and moves
    /// it into the window. At each position the longest run within reach
    /// becomes a match if it has three bytes or more and the next position
    /// offers no longer one; else the byte becomes a literal. No run is
    /// followed past the end of the slice. With no window or no probes every
    /// byte becomes a literal. Bytes that waited for their tokens get them
    /// first.
    pub fn encode(&mut self, input: &[u8]) -> (r: Result<Vec<Token>, TrickleError>)
        ensures
            r matches Ok(tokens) && ({
                let before = old(self)@;
                let bytes = before.pending + input@;
                &&& tokens@ == tokens_from(before, before.window + bytes, before.window.len() as int)
                &&& tokens@ == before.tokens_of(input@, true)
                &&& forall|i: int| 0 <= i < tokens@.len() ==> token_valid(before, #[trigger] tokens@[i])
                &&& in_window(before, before.window.len(), tokens@)
                &&& expand(before.window, tokens@) == before.window + bytes
                &&& (before.window_size == 0 || before.max_chain_length == 0) ==> tokens@ == literals(bytes)
                &&& before.pending.len() == 0 ==> expand(before.window, tokens@) == before.window + input@
                &&& (before.pending.len() == 0 && (before.window_size == 0 || before.max_chain_length
                    == 0)) ==> tokens@ == literals(input@)
            }),
            final(self)@ == old(self)@.after(input@, true),
            final(self)@ == (Lz77View {
                window: newest(old(self)@.window + (old(self)@.pending + input@), old(self)@.window_size),
                pending: Seq::empty(),
                ..old(self)@
            }),
            old(self)@.pending.len() == 0 ==> final(self)@.window == newest(
                old(self)@.window + input@,
                old(self)@.window_size,
            ),
            final(self)@.window.len() == (if old(self)@.window.len() + old(self)@.pending.len()
                + input@.len() <= old(self)@.window_size {
                old(self)@.window.len() + old(self)@.pending.len() + input@.len()
            } else {
                old(self)@.window_size
            }),
            final(self)@.wf(),
    {
        let ghost before = self@;
        let ghost bytes = self@.pending + input@;
        let ghost buf = self@.window + bytes;
        let ghost start = self@.window.len() as int;
        let work = self.gather(input);
        let (tokens, taken) = self.scan(work.as_slice(), 0);
        proof {
            lemma_ready_all(before, buf, start);
            lemma_tokens_expand(before, buf, start);
            assert(buf.subrange(0, start) =~= before.window);
            if before.window_size == 0 || before.max_chain_length == 0 {
                lemma_literal_only(before, buf, start);
                assert(buf.subrange(start, buf.len() as int) =~= bytes);
            }
            if before.pending.len() == 0 {
                assert(bytes =~= input@);
            }
            lemma_newest_len(buf, before.window_size);
            assert(work@.subrange(0, taken as int) =~= bytes);
            assert(work@.subrange(taken as int, work@.len() as int) =~= Seq::<u8>::empty());
        }
        self.commit(work.as_slice(), taken);
        Ok(tokens)
    }
}

} // verus!
