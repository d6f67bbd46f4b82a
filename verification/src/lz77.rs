use vstd::prelude::*;
use crate::error::LzrsError;
use crate::wire::{u16_le, u16_of_le, push_u16_le, read_u16_le};

verus! {

/// A sliding-window copy token. `distance == 0 && length == 0` means
/// "no match; emit the literal only"; otherwise the token copies `length`
/// bytes starting `distance` bytes back from the current output end and
/// then appends `literal`.
#[derive(Clone, Copy, Debug, PartialEq, Eq, Structural)]
pub struct Lz77Token {
    pub distance: u16,
    pub length: u16,
    pub literal: u8,
}

/// Replays one back-reference copy byte by byte: source and destination may
/// overlap when `distance < length`, so each copied byte may itself have
/// been produced by an earlier step of the same copy.
pub open spec fn copy_back(out: Seq<u8>, distance: int, length: nat) -> Seq<u8>
    decreases length,
{
    if length == 0 {
        out
    } else {
        copy_back(out.push(out[out.len() - distance]), distance, (length - 1) as nat)
    }
}

/// The output after replaying one token against the output produced so far.
pub open spec fn sw_step(out: Seq<u8>, t: Lz77Token) -> Seq<u8> {
    copy_back(out, t.distance as int, t.length as nat).push(t.literal)
}

/// The output after replaying the first `n` tokens.
pub open spec fn sw_decode_prefix(tokens: Seq<Lz77Token>, n: int) -> Seq<u8>
    decreases n,
{
    if n <= 0 {
        Seq::empty()
    } else {
        sw_step(sw_decode_prefix(tokens, n - 1), tokens[n - 1])
    }
}

/// The bytes a sliding-window token sequence decodes to.
pub open spec fn sw_decode(tokens: Seq<Lz77Token>) -> Seq<u8> {
    sw_decode_prefix(tokens, tokens.len() as int)
}

/// Token `i` never reaches before the start of the output: its distance is
/// at least 1 and at most the number of bytes produced by the tokens
/// before it.
pub open spec fn sw_token_ok(tokens: Seq<Lz77Token>, i: int) -> bool {
    tokens[i].length > 0 ==> {
        &&& 1 <= tokens[i].distance as int
        &&& tokens[i].distance as int <= sw_decode_prefix(tokens, i).len()
    }
}

/// A well-formed stream: every token's back-reference stays inside the
/// output produced by the tokens before it.
pub open spec fn sw_wf(tokens: Seq<Lz77Token>) -> bool {
    forall|i: int| 0 <= i < tokens.len() ==> #[trigger] sw_token_ok(tokens, i)
}

proof fn lemma_copy_back_len(out: Seq<u8>, d: int, l: nat)
    ensures
        copy_back(out, d, l).len() == out.len() + l,
    decreases l,
{
    if l > 0 {
        lemma_copy_back_len(out.push(out[out.len() - d]), d, (l - 1) as nat);
    }
}

proof fn lemma_sw_decode_prefix_push(tokens: Seq<Lz77Token>, t: Lz77Token, n: int)
    requires
        n <= tokens.len(),
    ensures
        sw_decode_prefix(tokens.push(t), n) == sw_decode_prefix(tokens, n),
    decreases n,
{
    if n > 0 {
        lemma_sw_decode_prefix_push(tokens, t, n - 1);
        assert(tokens.push(t)[n - 1] == tokens[n - 1]);
    }
}

/// Appending a token whose back-reference stays inside the current output
/// keeps the stream well formed and extends the decoded bytes by one step.
pub proof fn lemma_sw_push(tokens: Seq<Lz77Token>, t: Lz77Token)
    requires
        sw_wf(tokens),
        t.length > 0 ==> 1 <= t.distance as int && t.distance as int <= sw_decode(tokens).len(),
    ensures
        sw_wf(tokens.push(t)),
        sw_decode(tokens.push(t)) == sw_step(sw_decode(tokens), t),
{
    let ts = tokens.push(t);
    assert forall|i: int| 0 <= i < ts.len() implies #[trigger] sw_token_ok(ts, i) by {
        lemma_sw_decode_prefix_push(tokens, t, i);
        if i < tokens.len() {
            assert(ts[i] == tokens[i]);
            assert(sw_token_ok(tokens, i));
        } else {
            assert(ts[i] == t);
        }
    }
    lemma_sw_decode_prefix_push(tokens, t, tokens.len() as int);
    assert(ts[tokens.len() as int] == t);
}

/// If the `l` bytes at `i` repeat the `l` bytes starting `d` back, then the
/// byte-by-byte copy from `d` back extends `data`'s first `i` bytes to its
/// first `i + l` bytes.
proof fn lemma_copy_back_match(data: Seq<u8>, i: int, d: int, l: nat)
    requires
        1 <= d <= i,
        i + l <= data.len(),
        forall|k: int| 0 <= k < l ==> #[trigger] data[i + k] == data[i - d + k],
    ensures
        copy_back(data.take(i), d, l) == data.take(i + l),
    decreases l,
{
    if l == 0 {
    } else {
        let out = data.take(i);
        assert(out.len() == i);
        assert(out[i - d] == data[i - d]);
        assert(data[i + 0] == data[i - d + 0]);
        assert(out.push(data[i - d]) =~= data.take(i + 1));
        assert forall|k: int| 0 <= k < l - 1 implies #[trigger] data[i + 1 + k] == data[i + 1 - d + k] by {
            assert(data[i + (k + 1)] == data[i - d + (k + 1)]);
        }
        lemma_copy_back_match(data, i + 1, d, (l - 1) as nat);
        assert(copy_back(out, d, l) == copy_back(out.push(out[out.len() - d]), d, (l - 1) as nat));
        assert(copy_back(out.push(out[out.len() - d]), d, (l - 1) as nat)
            == copy_back(data.take(i + 1), d, (l - 1) as nat));
    }
}

/// The `l` bytes at `p` repeat the `l` bytes starting `d` back.
pub open spec fn match_at(data: Seq<u8>, p: int, d: int, l: int) -> bool {
    forall|k: int| 0 <= k < l ==> #[trigger] data[p + k] == data[p - d + k]
}

/// The greedy match policy for one token emitted with the cursor at `p`:
/// the longest match within the trailing window, capped by the lookahead
/// and by the need to leave a trailing literal; among equally long matches
/// the smallest distance; a literal-only token exactly when no match of
/// length one exists.
pub open spec fn sw_policy_at(data: Seq<u8>, w: int, la: int, t: Lz77Token, p: int) -> bool {
    let cap = vstd::math::min(la, data.len() - 1 - p);
    let maxd = vstd::math::min(p, w);
    if t.length == 0 {
        &&& t.distance == 0
        &&& forall|dd: int| 1 <= dd <= maxd ==> cap < 1 || !(#[trigger] match_at(data, p, dd, 1))
    } else {
        &&& 1 <= t.distance as int <= maxd
        &&& 1 <= t.length as int <= cap
        &&& match_at(data, p, t.distance as int, t.length as int)
        &&& (t.length as int == cap
            || forall|dd: int| 1 <= dd <= maxd ==> !(#[trigger] match_at(data, p, dd, t.length as int + 1)))
        &&& forall|dd: int| 1 <= dd < t.distance as int ==> !(#[trigger] match_at(data, p, dd, t.length as int))
    }
}

/// Every token of the stream obeys the greedy policy at its emission
/// cursor, which is the length of the output the tokens before it decode
/// to.
pub open spec fn sw_greedy(data: Seq<u8>, w: int, la: int, tokens: Seq<Lz77Token>) -> bool {
    forall|k: int| 0 <= k < tokens.len()
        ==> #[trigger] sw_policy_at(data, w, la, tokens[k], sw_decode_prefix(tokens, k).len() as int)
}

proof fn lemma_match_at_shrink(data: Seq<u8>, p: int, d: int, l1: int, l2: int)
    requires
        0 <= l1 <= l2,
        match_at(data, p, d, l2),
    ensures
        match_at(data, p, d, l1),
{
}

proof fn lemma_mismatch_bounds(data: Seq<u8>, p: int, d: int, l: int, x: int)
    requires
        0 <= l < x,
        data[p + l] != data[p - d + l],
    ensures
        !match_at(data, p, d, x),
{
    if match_at(data, p, d, x) {
        assert(data[p + l] == data[p - d + l]);
    }
}

proof fn lemma_sw_greedy_push(data: Seq<u8>, w: int, la: int, tokens: Seq<Lz77Token>, t: Lz77Token)
    requires
        sw_greedy(data, w, la, tokens),
        sw_policy_at(data, w, la, t, sw_decode(tokens).len() as int),
    ensures
        sw_greedy(data, w, la, tokens.push(t)),
{
    let ts = tokens.push(t);
    assert forall|k: int| 0 <= k < ts.len() implies
        #[trigger] sw_policy_at(data, w, la, ts[k], sw_decode_prefix(ts, k).len() as int) by {
        lemma_sw_decode_prefix_push(tokens, t, k);
        if k < tokens.len() {
            assert(ts[k] == tokens[k]);
            assert(sw_policy_at(data, w, la, tokens[k], sw_decode_prefix(tokens, k).len() as int));
        } else {
            assert(ts[k] == t);
        }
    }
}

/// Sliding-window compression. At each cursor position the trailing window
/// of up to `search_buffer_size` bytes is searched for the longest match of
/// the upcoming bytes, capped at `lookahead_buffer_size` and always leaving
/// the byte after the match to travel as the token's literal; equally long
/// matches prefer the smallest distance. The emitted stream is well formed
/// and decodes to exactly the input.
#[verifier::loop_isolation(false)]
pub fn compress(data: &[u8], search_buffer_size: usize, lookahead_buffer_size: usize)
    -> (r: Vec<Lz77Token>)
    requires
        search_buffer_size <= 0xFFFF,
        lookahead_buffer_size <= 0xFFFF,
    ensures
        sw_wf(r@),
        sw_decode(r@) == data@,
        r@.len() <= data@.len(),
        sw_greedy(data@, search_buffer_size as int, lookahead_buffer_size as int, r@),
{
    let ghost w = search_buffer_size as int;
    let ghost la = lookahead_buffer_size as int;
    let mut tokens: Vec<Lz77Token> = Vec::new();
    let mut i: usize = 0;
    while i < data.len()
        invariant
            i <= data@.len(),
            search_buffer_size <= 0xFFFF,
            lookahead_buffer_size <= 0xFFFF,
            sw_wf(tokens@),
            sw_decode(tokens@) == data@.take(i as int),
            tokens@.len() <= i,
            sw_greedy(data@, w, la, tokens@),
        decreases data@.len() - i,
    {
        let avail = data.len() - i - 1;
        let cap = if lookahead_buffer_size < avail {
            lookahead_buffer_size
        } else {
            avail
        };
        let max_d = if search_buffer_size < i {
            search_buffer_size
        } else {
            i
        };
        let mut best_d: usize = 0;
        let mut best_l: usize = 0;
        let mut d: usize = 1;
        while d <= max_d
            invariant
                1 <= d <= max_d + 1,
                max_d <= i,
                max_d <= search_buffer_size,
                i < data@.len(),
                cap <= data@.len() - 1 - i,
                cap <= lookahead_buffer_size,
                best_l <= cap,
                best_l > 0 ==> 1 <= best_d && best_d <= max_d,
                best_l == 0 ==> best_d == 0,
                forall|k: int| 0 <= k < best_l ==> #[trigger] data@[i + k] == data@[i - best_d + k],
                best_l == cap
                    || forall|dd: int| 1 <= dd < d
                        ==> !(#[trigger] match_at(data@, i as int, dd, best_l + 1)),
                forall|dd: int| 1 <= dd < best_d
                    ==> !(#[trigger] match_at(data@, i as int, dd, best_l as int)),
            decreases max_d + 1 - d,
        {
            let mut l: usize = 0;
            while l < cap && data[i + l] == data[i - d + l]
                invariant
                    l <= cap,
                    1 <= d <= i,
                    i < data@.len(),
                    cap <= data@.len() - 1 - i,
                    forall|k: int| 0 <= k < l ==> #[trigger] data@[i + k] == data@[i - d + k],
                decreases cap - l,
            {
                l += 1;
            }
            let ghost old_best_l = best_l as int;
            let ghost old_best_d = best_d as int;
            if l > best_l {
                best_l = l;
                best_d = d;
            }
            proof {
                let di = data@;
                let p = i as int;
                if l > old_best_l {
                    // a strictly longer match: the previous candidates were
                    // all shorter, so the new length and the new distance
                    // both beat them
                    assert(old_best_l < cap);
                    assert forall|dd: int| 1 <= dd < d
                        implies !(#[trigger] match_at(di, p, dd, best_l + 1)) by {
                        assert(!match_at(di, p, dd, old_best_l + 1));
                        if match_at(di, p, dd, best_l + 1) {
                            lemma_match_at_shrink(di, p, dd, old_best_l + 1, best_l + 1);
                        }
                    }
                    assert forall|dd: int| 1 <= dd < best_d
                        implies !(#[trigger] match_at(di, p, dd, best_l as int)) by {
                        assert(!match_at(di, p, dd, old_best_l + 1));
                        if match_at(di, p, dd, best_l as int) {
                            lemma_match_at_shrink(di, p, dd, old_best_l + 1, best_l as int);
                        }
                    }
                    if (l as int) < cap {
                        lemma_mismatch_bounds(di, p, d as int, l as int, best_l + 1);
                    }
                } else {
                    // no improvement at this distance: its maximal match is
                    // at most the best so far
                    if old_best_l < cap {
                        lemma_mismatch_bounds(di, p, d as int, l as int, old_best_l + 1);
                    }
                }
            }
            d += 1;
        }
        proof {
            assert(cap as int == vstd::math::min(la, data@.len() - 1 - i));
            assert(max_d as int == vstd::math::min(i as int, w));
        }
        if best_l == 0 {
            let t = Lz77Token { distance: 0, length: 0, literal: data[i] };
            proof {
                lemma_sw_push(tokens@, t);
                assert(sw_policy_at(data@, w, la, t, i as int));
                lemma_sw_greedy_push(data@, w, la, tokens@, t);
                assert(data@.take(i as int).push(data@[i as int]) =~= data@.take(i as int + 1));
            }
            tokens.push(t);
            i += 1;
        } else {
            let lit = data[i + best_l];
            let t = Lz77Token { distance: best_d as u16, length: best_l as u16, literal: lit };
            proof {
                assert(sw_decode(tokens@).len() == i);
                lemma_sw_push(tokens@, t);
                assert(match_at(data@, i as int, best_d as int, best_l as int));
                assert(sw_policy_at(data@, w, la, t, i as int));
                lemma_sw_greedy_push(data@, w, la, tokens@, t);
                lemma_copy_back_match(data@, i as int, best_d as int, best_l as nat);
                assert(data@.take((i + best_l) as int).push(data@[(i + best_l) as int])
                    =~= data@.take((i + best_l + 1) as int));
            }
            tokens.push(t);
            i += best_l + 1;
        }
    }
    proof {
        assert(data@.take(data@.len() as int) =~= data@);
    }
    tokens
}

/// Replays a sliding-window token stream against a growing output buffer.
/// Succeeds exactly on well-formed streams; a back-reference that would
/// reach before the output's start is reported as a format error.
#[verifier::loop_isolation(false)]
pub fn decompress(tokens: &[Lz77Token]) -> (r: Result<Vec<u8>, LzrsError>)
    ensures
        match r {
            Ok(out) => sw_wf(tokens@) && out@ == sw_decode(tokens@),
            Err(e) => e == LzrsError::FormatError && !sw_wf(tokens@),
        },
{
    let mut out: Vec<u8> = Vec::new();
    let mut j: usize = 0;
    while j < tokens.len()
        invariant
            j <= tokens@.len(),
            forall|i: int| 0 <= i < j ==> #[trigger] sw_token_ok(tokens@, i),
            out@ == sw_decode_prefix(tokens@, j as int),
        decreases tokens@.len() - j,
    {
        let t = tokens[j];
        if t.length > 0 {
            if t.distance == 0 || (t.distance as usize) > out.len() {
                proof {
                    assert(!sw_token_ok(tokens@, j as int));
                }
                return Err(LzrsError::FormatError);
            }
            let d = t.distance as usize;
            let l = t.length as usize;
            let ghost out0 = out@;
            let mut k: usize = 0;
            while k < l
                invariant
                    k <= l,
                    1 <= d <= out0.len(),
                    out@.len() == out0.len() + k,
                    copy_back(out0, d as int, l as nat) == copy_back(out@, d as int, (l - k) as nat),
                decreases l - k,
            {
                let b = out[out.len() - d];
                out.push(b);
                k += 1;
            }
            out.push(t.literal);
            proof {
                assert(sw_token_ok(tokens@, j as int));
            }
        } else {
            out.push(t.literal);
            proof {
                assert(sw_token_ok(tokens@, j as int));
            }
        }
        j += 1;
    }
    Ok(out)
}

/// The 5-byte wire form of one copy token: distance and length as
/// little-endian `u16`, then the literal byte.
pub open spec fn lz77_token_bytes(t: Lz77Token) -> Seq<u8> {
    u16_le(t.distance) + u16_le(t.length) + seq![t.literal]
}

/// The token read back from one 5-byte wire form.
pub open spec fn lz77_token_of(s: Seq<u8>) -> Lz77Token {
    Lz77Token {
        distance: u16_of_le(s.subrange(0, 2)),
        length: u16_of_le(s.subrange(2, 4)),
        literal: s[4],
    }
}

/// The fixed-width wire form of a whole token stream, tokens in order.
pub open spec fn lz77_stream_bytes(ts: Seq<Lz77Token>) -> Seq<u8>
    decreases ts.len(),
{
    if ts.len() == 0 {
        Seq::empty()
    } else {
        lz77_stream_bytes(ts.drop_last()) + lz77_token_bytes(ts.last())
    }
}

/// The token stream read back from a wire form whose length is a multiple
/// of 5.
pub open spec fn lz77_parse(s: Seq<u8>) -> Seq<Lz77Token>
    decreases s.len(),
{
    if s.len() < 5 {
        Seq::empty()
    } else {
        lz77_parse(s.take(s.len() - 5)).push(lz77_token_of(s.subrange(s.len() - 5, s.len() as int)))
    }
}

/// Reading one token's wire form back restores the token.
pub proof fn lemma_lz77_token_bytes_inverse(t: Lz77Token)
    ensures
        lz77_token_bytes(t).len() == 5,
        lz77_token_of(lz77_token_bytes(t)) == t,
{
    crate::wire::lemma_u16_le_inverse(t.distance);
    crate::wire::lemma_u16_le_inverse(t.length);
    assert(lz77_token_bytes(t).subrange(0, 2) =~= u16_le(t.distance));
    assert(lz77_token_bytes(t).subrange(2, 4) =~= u16_le(t.length));
    assert(lz77_token_bytes(t)[4] == t.literal);
}

/// The fixed-width serialization of a sliding-window token stream parses
/// back to exactly the same stream.
pub proof fn lemma_lz77_wire_round_trip(ts: Seq<Lz77Token>)
    ensures
        lz77_stream_bytes(ts).len() == 5 * ts.len(),
        lz77_parse(lz77_stream_bytes(ts)) == ts,
    decreases ts.len(),
{
    if ts.len() == 0 {
        assert(lz77_parse(lz77_stream_bytes(ts)) =~= ts);
    } else {
        lemma_lz77_wire_round_trip(ts.drop_last());
        lemma_lz77_token_bytes_inverse(ts.last());
        let s = lz77_stream_bytes(ts);
        assert(s.take(s.len() - 5) =~= lz77_stream_bytes(ts.drop_last()));
        assert(s.subrange(s.len() - 5, s.len() as int) =~= lz77_token_bytes(ts.last()));
        assert(lz77_parse(s) =~= ts);
    }
}

/// Serializes a token stream to its fixed-width wire form.
#[verifier::loop_isolation(false)]
pub fn lz77_tokens_to_bytes(tokens: &Vec<Lz77Token>) -> (r: Vec<u8>)
    ensures
        r@ == lz77_stream_bytes(tokens@),
        r@.len() == 5 * tokens@.len(),
{
    let mut out: Vec<u8> = Vec::new();
    let mut j: usize = 0;
    while j < tokens.len()
        invariant
            j <= tokens@.len(),
            out@ == lz77_stream_bytes(tokens@.take(j as int)),
            out@.len() == 5 * j,
        decreases tokens@.len() - j,
    {
        let t = tokens[j];
        push_u16_le(&mut out, t.distance);
        push_u16_le(&mut out, t.length);
        out.push(t.literal);
        proof {
            let pre = tokens@.take(j + 1);
            assert(pre.drop_last() =~= tokens@.take(j as int));
            assert(pre.last() == tokens@[j as int]);
            assert(out@ =~= lz77_stream_bytes(pre));
        }
        j += 1;
    }
    proof {
        assert(tokens@.take(tokens@.len() as int) =~= tokens@);
    }
    out
}

/// Decodes a fixed-width wire form into its token stream; a trailing
/// partial token means the stream was cut short.
#[verifier::loop_isolation(false)]
pub fn lz77_tokens_from_bytes(data: &[u8]) -> (r: Result<Vec<Lz77Token>, LzrsError>)
    ensures
        match r {
            Ok(ts) => data@.len() % 5 == 0 && ts@ == lz77_parse(data@),
            Err(e) => e == LzrsError::TruncatedInput && data@.len() % 5 != 0,
        },
{
    if data.len() % 5 != 0 {
        return Err(LzrsError::TruncatedInput);
    }
    let n = data.len() / 5;
    proof {
        vstd::arithmetic::div_mod::lemma_fundamental_div_mod(data@.len() as int, 5);
    }
    let mut ts: Vec<Lz77Token> = Vec::new();
    let mut j: usize = 0;
    while j < n
        invariant
            j <= n,
            5 * n == data@.len(),
            data@.len() % 5 == 0,
            ts@ == lz77_parse(data@.take(5 * j as int)),
        decreases n - j,
    {
        let idx = j * 5;
        let d = read_u16_le(data[idx], data[idx + 1]);
        let l = read_u16_le(data[idx + 2], data[idx + 3]);
        let lit = data[idx + 4];
        let t = Lz77Token { distance: d, length: l, literal: lit };
        proof {
            let pre = data@.take(5 * (j + 1) as int);
            assert(pre.len() == 5 * j + 5);
            assert(pre.take(pre.len() - 5) =~= data@.take(5 * j as int));
            let sub = pre.subrange(pre.len() - 5, pre.len() as int);
            assert(sub.subrange(0, 2) =~= seq![data@[5 * j as int], data@[5 * j + 1]]);
            assert(sub.subrange(2, 4) =~= seq![data@[5 * j + 2], data@[5 * j + 3]]);
            assert(sub[4] == data@[5 * j + 4]);
            assert(lz77_token_of(sub) == t);
            assert(lz77_parse(pre) == lz77_parse(data@.take(5 * j as int)).push(lz77_token_of(sub)));
        }
        ts.push(t);
        j += 1;
    }
    proof {
        assert(data@.take(data@.len() as int) =~= data@);
    }
    Ok(ts)
}

} // verus!
