//! What holds of whole sessions: the stream does not depend on how the input
//! is cut into slices, and it reads back as the bytes it was made from.
use vstd::prelude::*;
use crate::deflate::{
    after_chunk, chunk_outcome, chunk_stream, decode_from, lemma_copy_back_len, Decoded, DeflateView,
};
use crate::huffman::{
    all_encodable, code_of, codes, encodable, end_code, lemma_codes_concat, lemma_codes_front,
};
use crate::lz77::{
    best_within, expand, expand_token, in_window, lemma_best_within_bounds, lemma_ready_all,
    lemma_ready_split, lemma_ready_stop_bounds, lemma_tokens_expand, lemma_tokens_valid, newest,
    ready_stop,
    ready_tokens, run_length, token_span, token_valid, tokens_from, Lz77View, Token,
};
use crate::TrickleError;

verus! {

/// The slices one after the other.
pub open spec fn joined(slices: Seq<Seq<u8>>) -> Seq<u8>
    decreases slices.len(),
{
    if slices.len() == 0 {
        Seq::empty()
    } else {
        slices[0] + joined(slices.drop_first())
    }
}

/// The stream of a session that is fed the slices in their order and ended
/// with the last of them.
pub open spec fn session_stream(v: Lz77View, slices: Seq<Seq<u8>>) -> Seq<u8>
    decreases slices.len(),
{
    if slices.len() == 0 {
        Seq::empty()
    } else {
        chunk_stream(v, slices[0], slices.len() == 1) + session_stream(
            v.after(slices[0], slices.len() == 1),
            slices.drop_first(),
        )
    }
}

/// A run does not depend on bytes that lie farther back than its distance.
pub proof fn lemma_run_length_shift(buf: Seq<u8>, from: int, pos: int, dist: int, limit: nat)
    requires
        0 <= from <= pos <= buf.len(),
        1 <= dist <= pos - from,
    ensures
        run_length(buf.subrange(from, buf.len() as int), pos - from, dist, limit) == run_length(
            buf,
            pos,
            dist,
            limit,
        ),
    decreases limit,
{
    if limit > 0 && pos < buf.len() {
        lemma_run_length_shift(buf, from, pos + 1, dist, (limit - 1) as nat);
    }
}

/// The best match within a number of distances does not depend on bytes
/// that lie farther back than those distances.
pub proof fn lemma_best_within_shift(buf: Seq<u8>, from: int, pos: int, d: nat, limit: nat)
    requires
        0 <= from <= pos <= buf.len(),
        d <= pos - from,
    ensures
        best_within(buf.subrange(from, buf.len() as int), pos - from, d, limit) == best_within(
            buf,
            pos,
            d,
            limit,
        ),
    decreases d,
{
    if d > 0 {
        lemma_best_within_shift(buf, from, pos, (d - 1) as nat, limit);
        lemma_run_length_shift(buf, from, pos, d as int, limit);
    }
}

/// The tokens from a position on do not depend on bytes that have left the
/// window: dropping `from` bytes at the front, none or so many that a whole
/// window is left before the position, leaves the tokens as they are.
pub proof fn lemma_tokens_shift(v: Lz77View, buf: Seq<u8>, from: int, pos: int)
    requires
        0 <= from <= pos <= buf.len(),
        from == 0 || pos - from >= v.window_size,
    ensures
        tokens_from(v, buf.subrange(from, buf.len() as int), pos - from) == tokens_from(v, buf, pos),
    decreases buf.len() - pos,
{
    let cut = buf.subrange(from, buf.len() as int);
    if pos < buf.len() {
        assert(v.reach(pos - from) == v.reach(pos));
        lemma_best_within_shift(buf, from, pos, v.reach(pos), v.length_cap());
        lemma_best_within_bounds(buf, pos, v.reach(pos), v.length_cap());
        let m = v.best_at(buf, pos);
        assert(v.best_at(cut, pos - from) == m);
        assert(cut[pos - from] == buf[pos]);
        if pos + 1 < buf.len() {
            assert(v.reach(pos + 1 - from) == v.reach(pos + 1));
            lemma_best_within_shift(buf, from, pos + 1, v.reach(pos + 1), v.length_cap());
        }
        assert(v.defers(cut, pos - from, m.0) == v.defers(buf, pos, m.0));
        if m.0 >= 3 && !v.defers(buf, pos, m.0) {
            lemma_tokens_shift(v, buf, from, pos + m.0);
        } else {
            lemma_tokens_shift(v, buf, from, pos + 1);
        }
    }
}

/// The tokens depend on the limits of the match finder, not on what its
/// window holds.
pub proof fn lemma_tokens_same_limits(v: Lz77View, w: Lz77View, buf: Seq<u8>, pos: int)
    requires
        v.window_size == w.window_size,
        v.max_lazy_match == w.max_lazy_match,
        v.max_chain_length == w.max_chain_length,
    ensures
        tokens_from(v, buf, pos) == tokens_from(w, buf, pos),
    decreases buf.len() - pos,
{
    if 0 <= pos < buf.len() {
        lemma_best_within_bounds(buf, pos, v.reach(pos), v.length_cap());
        let m = v.best_at(buf, pos);
        assert(w.best_at(buf, pos) == m);
        assert(v.reach(pos + 1) == w.reach(pos + 1));
        if m.0 >= 3 && !v.defers(buf, pos, m.0) {
            lemma_tokens_same_limits(v, w, buf, pos + m.0);
        } else {
            lemma_tokens_same_limits(v, w, buf, pos + 1);
        }
    }
}

/// Expanding tokens never takes bytes away.
pub proof fn lemma_expand_grows(v: Lz77View, data: Seq<u8>, tokens: Seq<Token>)
    requires
        in_window(v, data.len(), tokens),
    ensures
        expand(data, tokens).len() >= data.len(),
    decreases tokens.len(),
{
    if tokens.len() > 0 {
        lemma_expand_token_len(v, data, tokens);
        lemma_expand_grows(v, expand_token(data, tokens[0]), tokens.drop_first());
    }
}

/// The first token adds the bytes that it stands for, and the tokens after
/// it point into what is then there.
pub proof fn lemma_expand_token_len(v: Lz77View, data: Seq<u8>, tokens: Seq<Token>)
    requires
        tokens.len() > 0,
        in_window(v, data.len(), tokens),
    ensures
        expand_token(data, tokens[0]).len() == data.len() + token_span(tokens[0]),
        in_window(v, expand_token(data, tokens[0]).len(), tokens.drop_first()),
{
    match tokens[0] {
        Token::Literal(b) => {},
        Token::Match { length, distance } => {
            lemma_copy_back_len(data, distance as nat, length as nat);
        },
    }
}

/// Reading the codewords of tokens gives what the tokens expand to: where
/// the stream holds the codewords of `tokens` from place `i` on, reading from
/// there goes on behind them with the expanded bytes.
pub proof fn lemma_decode_tokens(
    v: Lz77View,
    stream: Seq<u8>,
    i: int,
    tokens: Seq<Token>,
    data: Seq<u8>,
    limit: nat,
)
    requires
        0 <= i,
        i + codes(tokens).len() <= stream.len(),
        stream.subrange(i, i + codes(tokens).len()) == codes(tokens),
        all_encodable(tokens),
        in_window(v, data.len(), tokens),
        expand(data, tokens).len() <= limit,
    ensures
        decode_from(stream, i, data, limit) == decode_from(
            stream,
            i + codes(tokens).len(),
            expand(data, tokens),
            limit,
        ),
    decreases tokens.len(),
{
    if tokens.len() == 0 {
    } else {
        let t = tokens[0];
        let rest = tokens.drop_first();
        let word = code_of(t);
        let all = codes(tokens);
        let here = stream.subrange(i, i + all.len());
        lemma_codes_front(tokens);
        assert(encodable(t));
        assert forall|k: int| 0 <= k < rest.len() implies encodable(#[trigger] rest[k]) by {
            assert(rest[k] == tokens[k + 1]);
        }
        let next = expand_token(data, t);
        lemma_expand_token_len(v, data, tokens);
        lemma_expand_grows(v, next, rest);
        assert forall|k: int| 0 <= k < word.len() implies stream[i + k] == word[k] by {
            assert(here[k] == stream[i + k]);
            assert(all[k] == word[k]);
        }
        assert(stream.subrange(i + word.len(), i + word.len() + codes(rest).len()) =~= codes(rest)) by {
            assert forall|k: int| 0 <= k < codes(rest).len() implies stream[i + word.len() + k] == codes(
                rest,
            )[k] by {
                assert(here[word.len() + k] == stream[i + word.len() + k]);
                assert(all[word.len() + k] == codes(rest)[k]);
            }
        }
        lemma_decode_tokens(v, stream, i + word.len(), rest, next, limit);
        match t {
            Token::Literal(b) => {
                if b == 0xFF {
                    assert(stream[i] == word[0]);
                    assert(stream[i + 1] == word[1]);
                } else {
                    assert(stream[i] == word[0]);
                }
            },
            Token::Match { length, distance } => {
                assert(stream[i] == word[0]);
                assert(stream[i + 1] == word[1]);
                assert(stream[i + 2] == word[2]);
                assert(stream[i + 3] == word[3]);
                assert(stream[i + 4] == word[4]);
                let far = distance - 1;
                assert(far == (far % 256) + 256 * (far / 256));
            },
        }
    }
}

/// A stream reads back as the bytes it was made from: reading the stream of
/// one call on a fresh session ends at the end codeword and gives the input,
/// where there is room for it.
pub proof fn lemma_round_trip(v: Lz77View, input: Seq<u8>, limit: nat)
    requires
        v.window.len() == 0,
        v.pending.len() == 0,
        input.len() <= limit,
    ensures
        decode_from(chunk_stream(v, input, true), 0, Seq::empty(), limit) == (Decoded::Done {
            consumed: chunk_stream(v, input, true).len(),
            data: input,
            ended: true,
        }),
{
    let buf = v.buffer(input);
    assert(buf =~= input);
    lemma_ready_all(v, buf, 0);
    let tokens = v.tokens_of(input, true);
    let stream = chunk_stream(v, input, true);
    let body = codes(tokens);
    lemma_tokens_valid(v, buf, 0);
    lemma_tokens_expand(v, buf, 0);
    assert(buf.subrange(0, 0) =~= Seq::<u8>::empty());
    assert forall|k: int| 0 <= k < tokens.len() implies encodable(#[trigger] tokens[k]) by {
        assert(token_valid(v, tokens[k]));
    }
    assert(stream.subrange(0, body.len() as int) =~= body);
    lemma_decode_tokens(v, stream, 0, tokens, Seq::empty(), limit);
    let at = body.len() as int;
    assert(stream[at] == end_code()[0]);
    assert(stream[at + 1] == end_code()[1]);
}

/// A run that ends within the buffer stays as it is when bytes are added
/// behind the buffer.
pub proof fn lemma_run_length_extend(buf: Seq<u8>, more: Seq<u8>, pos: int, dist: int, limit: nat)
    requires
        0 <= pos,
        1 <= dist,
        pos + limit <= buf.len(),
    ensures
        run_length(buf + more, pos, dist, limit) == run_length(buf, pos, dist, limit),
    decreases limit,
{
    if limit > 0 {
        let long = buf + more;
        assert(long[pos] == buf[pos]);
        if 0 <= pos - dist {
            assert(long[pos - dist] == buf[pos - dist]);
        }
        lemma_run_length_extend(buf, more, pos + 1, dist, (limit - 1) as nat);
    }
}

/// The best match stays as it is when bytes are added behind the buffer that
/// no run can reach.
pub proof fn lemma_best_within_extend(buf: Seq<u8>, more: Seq<u8>, pos: int, d: nat, limit: nat)
    requires
        0 <= pos,
        pos + limit <= buf.len(),
    ensures
        best_within(buf + more, pos, d, limit) == best_within(buf, pos, d, limit),
    decreases d,
{
    if d > 0 {
        lemma_best_within_extend(buf, more, pos, (d - 1) as nat, limit);
        lemma_run_length_extend(buf, more, pos, d as int, limit);
    }
}

/// What follows cannot change a token that was told: with the longest match
/// or more held back, the tokens of a buffer are the tokens that it has with
/// more bytes behind it, as far as those were told without them.
pub proof fn lemma_ready_extend(v: Lz77View, buf: Seq<u8>, more: Seq<u8>, pos: int, hold: nat)
    requires
        0 <= pos <= buf.len(),
        hold >= v.length_cap(),
    ensures
        ready_tokens(v, buf + more, pos, hold + more.len()) == ready_tokens(v, buf, pos, hold),
        ready_stop(v, buf + more, pos, hold + more.len()) == ready_stop(v, buf, pos, hold),
    decreases buf.len() - pos,
{
    let long = buf + more;
    let cap = v.length_cap();
    if buf.len() - pos > hold {
        lemma_best_within_extend(buf, more, pos, v.reach(pos), cap);
        lemma_best_within_bounds(buf, pos, v.reach(pos), cap);
        let m = v.best_at(buf, pos);
        assert(v.best_at(long, pos) == m);
        assert(long[pos] == buf[pos]);
        if cap >= 1 {
            lemma_best_within_extend(buf, more, pos + 1, v.reach(pos + 1), cap);
            assert(v.defers(long, pos, m.0) == v.defers(buf, pos, m.0));
        }
        if m.0 >= 3 && !v.defers(buf, pos, m.0) {
            lemma_ready_extend(v, buf, more, pos + m.0, hold);
        } else {
            lemma_ready_extend(v, buf, more, pos + 1, hold);
        }
    }
}

/// The tokens of a buffer with more bytes behind it are the tokens that were
/// told without those bytes, followed by the tokens from where those stop.
pub proof fn lemma_told_then_rest(v: Lz77View, buf: Seq<u8>, tail: Seq<u8>, start: int)
    requires
        0 <= start <= buf.len(),
    ensures
        ready_tokens(v, buf + tail, start, 0) == ready_tokens(v, buf, start, v.length_cap()) + ready_tokens(
            v,
            buf + tail,
            ready_stop(v, buf, start, v.length_cap()),
            0,
        ),
{
    let cap = v.length_cap();
    lemma_ready_split(v, buf + tail, start, cap + tail.len(), 0);
    lemma_ready_extend(v, buf, tail, start, cap);
}

/// After a slice the match finder holds the newest bytes that got their
/// tokens and the bytes that wait: with more bytes behind them, these are
/// the end of all the bytes, from the start of the new window on.
pub proof fn lemma_after_buffer(v: Lz77View, first: Seq<u8>, tail: Seq<u8>)
    ensures
        ({
            let buf = v.buffer(first);
            let stop = ready_stop(v, buf, v.window.len() as int, v.length_cap());
            let from: int = if stop > v.window_size { stop - v.window_size } else { 0 };
            let next = v.after(first, false);
            &&& v.window.len() <= stop <= buf.len()
            &&& next.window.len() == stop - from
            &&& next.buffer(tail) == (buf + tail).subrange(from, (buf + tail).len() as int)
            &&& next.window_size == v.window_size
            &&& next.max_lazy_match == v.max_lazy_match
            &&& next.max_chain_length == v.max_chain_length
        }),
{
    let buf = v.buffer(first);
    let start = v.window.len() as int;
    let stop = ready_stop(v, buf, start, v.length_cap());
    lemma_ready_stop_bounds(v, buf, start, v.length_cap());
    let from: int = if stop > v.window_size { stop - v.window_size } else { 0 };
    let next = v.after(first, false);
    let work = v.pending + first;
    let all = v.window + work.subrange(0, stop - start);
    assert(all =~= buf.subrange(0, stop));
    assert(next.window =~= buf.subrange(from, stop));
    assert(next.pending =~= buf.subrange(stop, buf.len() as int));
    assert(next.buffer(tail) =~= (buf + tail).subrange(from, (buf + tail).len() as int));
}

/// A later slice gets the tokens that one call on all the bytes gives from
/// where the earlier tokens stop: what the window has dropped was out of
/// reach anyway.
pub proof fn lemma_rest_after(v: Lz77View, first: Seq<u8>, tail: Seq<u8>)
    ensures
        v.after(first, false).tokens_of(tail, true) == ready_tokens(
            v,
            v.buffer(first) + tail,
            ready_stop(v, v.buffer(first), v.window.len() as int, v.length_cap()),
            0,
        ),
{
    let buf = v.buffer(first);
    let long = buf + tail;
    let stop = ready_stop(v, buf, v.window.len() as int, v.length_cap());
    let from: int = if stop > v.window_size { stop - v.window_size } else { 0 };
    let next = v.after(first, false);
    let seen = next.buffer(tail);
    lemma_after_buffer(v, first, tail);
    lemma_tokens_shift(v, long, from, stop);
    lemma_tokens_same_limits(v, next, seen, stop - from);
    lemma_ready_all(v, long, stop);
    lemma_ready_all(next, seen, stop - from);
}

/// Cutting the input in two leaves the tokens as they are: the tokens of the
/// whole are those that the first slice brings out, followed by those that
/// the rest brings out at the end of the session.
pub proof fn lemma_cut_tokens(v: Lz77View, first: Seq<u8>, tail: Seq<u8>)
    ensures
        v.tokens_of(first + tail, true) == v.tokens_of(first, false) + v.after(first, false).tokens_of(
            tail,
            true,
        ),
{
    let buf = v.buffer(first);
    assert(v.buffer(first + tail) =~= buf + tail);
    lemma_told_then_rest(v, buf, tail, v.window.len() as int);
    lemma_rest_after(v, first, tail);
}

/// However the input is cut into slices, the session writes the stream of
/// one call on the whole input.
pub proof fn lemma_slices_give_one_stream(v: Lz77View, slices: Seq<Seq<u8>>)
    requires
        slices.len() > 0,
    ensures
        session_stream(v, slices) == chunk_stream(v, joined(slices), true),
    decreases slices.len(),
{
    let first = slices[0];
    let rest = slices.drop_first();
    if slices.len() == 1 {
        assert(joined(rest) =~= Seq::<u8>::empty());
        assert(joined(slices) =~= first);
        assert(session_stream(v.after(first, true), rest) =~= Seq::<u8>::empty());
        assert(chunk_stream(v, first, true) + Seq::<u8>::empty() =~= chunk_stream(v, first, true));
    } else {
        lemma_slices_give_one_stream(v.after(first, false), rest);
        lemma_cut_stream(v, first, joined(rest));
    }
}

/// The session after it was fed the slices in their order and ended with
/// the last of them.
pub open spec fn session_after(s: DeflateView, slices: Seq<Seq<u8>>) -> DeflateView
    decreases slices.len(),
{
    if slices.len() == 0 {
        s
    } else {
        session_after(after_chunk(s, slices[0], slices.len() == 1), slices.drop_first())
    }
}

/// Cutting the input in two leaves the stream as it is.
pub proof fn lemma_cut_stream(v: Lz77View, first: Seq<u8>, tail: Seq<u8>)
    ensures
        chunk_stream(v, first + tail, true) == chunk_stream(v, first, false) + chunk_stream(
            v.after(first, false),
            tail,
            true,
        ),
{
    lemma_cut_tokens(v, first, tail);
    let told = v.tokens_of(first, false);
    let later = v.after(first, false).tokens_of(tail, true);
    lemma_codes_concat(told, later);
    let x = codes(told);
    let y = codes(later);
    assert((x + Seq::<u8>::empty()) + (y + end_code()) =~= (x + y) + end_code());
}

/// Keeping the newest bytes, adding bytes and keeping the newest again keeps
/// what keeping the newest of all of them keeps.
pub proof fn lemma_newest_again(a: Seq<u8>, b: Seq<u8>, size: nat)
    ensures
        newest(newest(a, size) + b, size) == newest(a + b, size),
{
    assert(newest(newest(a, size) + b, size) =~= newest(a + b, size));
}

/// The window after slices went into it one by one, each time keeping the
/// newest bytes.
pub open spec fn window_after(window: Seq<u8>, size: nat, slices: Seq<Seq<u8>>) -> Seq<u8>
    decreases slices.len(),
{
    if slices.len() == 0 {
        window
    } else {
        window_after(newest(window + slices[0], size), size, slices.drop_first())
    }
}

/// After any number of slices the window holds the newest bytes of all that
/// went into it, as many as it has room for and no more.
pub proof fn lemma_window_holds_newest(window: Seq<u8>, size: nat, slices: Seq<Seq<u8>>)
    requires
        window.len() <= size,
    ensures
        window_after(window, size, slices) == newest(window + joined(slices), size),
        window_after(window, size, slices).len() == (if window.len() + joined(slices).len() <= size {
            window.len() + joined(slices).len()
        } else {
            size
        }),
    decreases slices.len(),
{
    if slices.len() == 0 {
        assert(window + joined(slices) =~= window);
        assert(newest(window, size) =~= window);
    } else {
        let first = slices[0];
        let rest = slices.drop_first();
        let next = newest(window + first, size);
        lemma_window_holds_newest(next, size, rest);
        lemma_newest_again(window + first, joined(rest), size);
        assert((window + first) + joined(rest) =~= window + joined(slices));
    }
}

/// At the end of a session every byte has its token: the window holds the
/// newest of all the bytes, and none waits.
pub proof fn lemma_after_all(v: Lz77View, input: Seq<u8>)
    ensures
        v.after(input, true) == (Lz77View {
            window: newest(v.buffer(input), v.window_size),
            pending: Seq::empty(),
            ..v
        }),
{
    let work = v.pending + input;
    let buf = v.buffer(input);
    lemma_ready_all(v, buf, v.window.len() as int);
    assert(work.subrange(0, work.len() as int) =~= work);
    assert(work.subrange(work.len() as int, work.len() as int) =~= Seq::<u8>::empty());
}

/// Cutting the input in two leaves the match finder at the end as it is.
pub proof fn lemma_cut_after(v: Lz77View, first: Seq<u8>, tail: Seq<u8>)
    ensures
        v.after(first, false).after(tail, true) == v.after(first + tail, true),
{
    let next = v.after(first, false);
    let work = v.pending + first;
    let buf = v.buffer(first);
    let start = v.window.len() as int;
    let stop = ready_stop(v, buf, start, v.length_cap());
    lemma_ready_stop_bounds(v, buf, start, v.length_cap());
    let taken = work.subrange(0, stop - start);
    let waits = work.subrange(stop - start, work.len() as int);
    lemma_after_all(next, tail);
    lemma_after_all(v, first + tail);
    lemma_newest_again(v.window + taken, waits + tail, v.window_size);
    assert((v.window + taken) + (waits + tail) =~= v.buffer(first + tail));
}

/// However the input is cut into slices, the session ends as one call on
/// the whole input ends it: with the same window, and with counters that
/// have grown by the length of the input and by the length of that call's
/// stream.
pub proof fn lemma_slices_give_one_session(s: DeflateView, slices: Seq<Seq<u8>>)
    requires
        slices.len() > 0,
    ensures
        session_after(s, slices) == after_chunk(s, joined(slices), true),
        session_after(s, slices).bytes_processed == s.bytes_processed + joined(slices).len(),
        session_after(s, slices).bytes_output == s.bytes_output + session_stream(s.lz77, slices).len(),
        session_after(s, slices).finished,
    decreases slices.len(),
{
    let first = slices[0];
    let rest = slices.drop_first();
    lemma_slices_give_one_stream(s.lz77, slices);
    if slices.len() == 1 {
        assert(joined(rest) =~= Seq::<u8>::empty());
        assert(joined(slices) =~= first);
        assert(session_after(after_chunk(s, first, true), rest) == after_chunk(s, first, true));
    } else {
        let tail = joined(rest);
        let next = after_chunk(s, first, false);
        lemma_slices_give_one_session(next, rest);
        lemma_cut_after(s.lz77, first, tail);
        lemma_cut_stream(s.lz77, first, tail);
    }
}

/// One call on a slice as its caller sees it: what went in, the buffer
/// before and after, the result, and the session after it.
pub struct SliceCall {
    pub input: Seq<u8>,
    pub room: Seq<u8>,
    pub result: Result<(usize, usize, bool), TrickleError>,
    pub after: DeflateView,
    pub out: Seq<u8>,
}

/// Whether the calls are what a session that starts as `s` gives when it is
/// fed slice by slice and ended with the last call, each call on the session
/// that the call before it left, and each with room enough to succeed.
pub open spec fn calls_succeed(s: DeflateView, calls: Seq<SliceCall>) -> bool
    decreases calls.len(),
{
    if calls.len() == 0 {
        true
    } else {
        let c = calls[0];
        &&& c.input.len() <= usize::MAX
        &&& c.room.len() <= usize::MAX
        &&& chunk_outcome(s, c.input, c.room, calls.len() == 1, c.result, c.after, c.out)
        &&& c.result is Ok
        &&& calls_succeed(c.after, calls.drop_first())
    }
}

/// The slices that the calls were made on.
pub open spec fn calls_input(calls: Seq<SliceCall>) -> Seq<Seq<u8>> {
    Seq::new(calls.len(), |i: int| calls[i].input)
}

/// What the calls wrote, one call's bytes after the other's: of each buffer
/// the front, as long as the call reported.
pub open spec fn calls_written(calls: Seq<SliceCall>) -> Seq<u8>
    decreases calls.len(),
{
    if calls.len() == 0 {
        Seq::empty()
    } else {
        (match calls[0].result {
            Ok(t) => calls[0].out.subrange(0, t.1 as int),
            Err(_) => Seq::empty(),
        }) + calls_written(calls.drop_first())
    }
}

/// The bytes that the calls reported as taken, summed up.
pub open spec fn calls_consumed(calls: Seq<SliceCall>) -> nat
    decreases calls.len(),
{
    if calls.len() == 0 {
        0
    } else {
        (match calls[0].result {
            Ok(t) => t.0 as nat,
            Err(_) => 0,
        }) + calls_consumed(calls.drop_first())
    }
}

/// What successful calls write is the session's stream, and what they take
/// is their input.
pub proof fn lemma_calls_follow_session(s: DeflateView, calls: Seq<SliceCall>)
    requires
        !s.finished,
        calls_succeed(s, calls),
    ensures
        calls_written(calls) == session_stream(s.lz77, calls_input(calls)),
        calls_consumed(calls) == joined(calls_input(calls)).len(),
        calls.len() > 0 ==> calls[calls.len() - 1].after == session_after(s, calls_input(calls)),
    decreases calls.len(),
{
    let slices = calls_input(calls);
    if calls.len() > 0 {
        let c = calls[0];
        let rest = calls.drop_first();
        let last = calls.len() == 1;
        let stream = chunk_stream(s.lz77, c.input, last);
        assert(slices.drop_first() =~= calls_input(rest));
        assert(slices[0] == c.input);
        assert(c.out.subrange(0, stream.len() as int) =~= stream);
        if last {
            assert(calls_written(rest) =~= Seq::<u8>::empty());
            assert(session_stream(c.after.lz77, calls_input(rest)) =~= Seq::<u8>::empty());
            assert(joined(calls_input(rest)) =~= Seq::<u8>::empty());
            assert(session_after(c.after, calls_input(rest)) == c.after);
        } else {
            lemma_calls_follow_session(c.after, rest);
            assert(rest[rest.len() - 1] == calls[calls.len() - 1]);
        }
    } else {
        assert(joined(slices) =~= Seq::<u8>::empty());
    }
}

/// However the input is cut into slices: where a session is fed the slices
/// in successful calls, the last of them with `finish`, the bytes that the
/// calls write, put together, are the stream of one call on the whole input,
/// the calls take the whole input between them, and the session ends as that
/// one call would end it.
pub proof fn lemma_calls_give_one_stream(s: DeflateView, calls: Seq<SliceCall>)
    requires
        !s.finished,
        calls.len() > 0,
        calls_succeed(s, calls),
    ensures
        calls_written(calls) == chunk_stream(s.lz77, joined(calls_input(calls)), true),
        calls_consumed(calls) == joined(calls_input(calls)).len(),
        calls[calls.len() - 1].after == after_chunk(s, joined(calls_input(calls)), true),
{
    lemma_calls_follow_session(s, calls);
    lemma_slices_give_one_stream(s.lz77, calls_input(calls));
    lemma_slices_give_one_session(s, calls_input(calls));
}

/// However the input is cut into slices, the stream of a fresh session reads
/// back as the input, where there is room for it.
pub proof fn lemma_session_round_trip(v: Lz77View, slices: Seq<Seq<u8>>, limit: nat)
    requires
        v.window.len() == 0,
        v.pending.len() == 0,
        slices.len() > 0,
        joined(slices).len() <= limit,
    ensures
        decode_from(session_stream(v, slices), 0, Seq::empty(), limit) == (Decoded::Done {
            consumed: session_stream(v, slices).len(),
            data: joined(slices),
            ended: true,
        }),
{
    lemma_slices_give_one_stream(v, slices);
    lemma_round_trip(v, joined(slices), limit);
}

} // verus!
