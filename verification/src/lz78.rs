use vstd::prelude::*;
use crate::error::LzrsError;
use crate::wire::{u64_le, u64_of_le, push_u64_le};

verus! {

/// An incremental-dictionary phrase token: the phrase at `prefix_index`
/// extended by `symbol`. `prefix_index == 0` denotes the empty-phrase root.
/// The token emitted k-th (1-based) defines dictionary index k.
#[derive(Clone, Copy, Debug, PartialEq, Eq, Structural)]
pub struct Lz78Token {
    pub prefix_index: u64,
    pub symbol: u8,
}

/// Token `i` only references the root or a dictionary index already defined
/// by an earlier token.
pub open spec fn lz78_token_ok(tokens: Seq<Lz78Token>, i: int) -> bool {
    tokens[i].prefix_index as int <= i
}

/// A well-formed stream: every token's prefix index is already defined when
/// the token is processed.
pub open spec fn lz78_wf(tokens: Seq<Lz78Token>) -> bool {
    forall|i: int| 0 <= i < tokens.len() ==> #[trigger] lz78_token_ok(tokens, i)
}

/// The phrase stored at dictionary index `idx`: index 0 is the empty root,
/// and index k (1-based) is defined by the k-th token as its prefix's phrase
/// extended by its symbol.
pub open spec fn phrase_of(tokens: Seq<Lz78Token>, idx: int) -> Seq<u8>
    decreases idx,
{
    if idx <= 0 || idx > tokens.len() {
        Seq::empty()
    } else if tokens[idx - 1].prefix_index < idx {
        phrase_of(tokens, tokens[idx - 1].prefix_index as int).push(tokens[idx - 1].symbol)
    } else {
        Seq::empty()
    }
}

/// The output after replaying the first `n` tokens: the concatenation of
/// the phrases they define, in order.
pub open spec fn lz78_decode_prefix(tokens: Seq<Lz78Token>, n: int) -> Seq<u8>
    decreases n,
{
    if n <= 0 {
        Seq::empty()
    } else {
        lz78_decode_prefix(tokens, n - 1) + phrase_of(tokens, n)
    }
}

/// The bytes an incremental-dictionary token sequence decodes to.
pub open spec fn lz78_decode(tokens: Seq<Lz78Token>) -> Seq<u8> {
    lz78_decode_prefix(tokens, tokens.len() as int)
}

proof fn lemma_phrase_of_push(tokens: Seq<Lz78Token>, t: Lz78Token, idx: int)
    requires
        0 <= idx <= tokens.len(),
    ensures
        phrase_of(tokens.push(t), idx) == phrase_of(tokens, idx),
    decreases idx,
{
    if idx > 0 {
        assert(tokens.push(t)[idx - 1] == tokens[idx - 1]);
        if tokens[idx - 1].prefix_index < idx {
            lemma_phrase_of_push(tokens, t, tokens[idx - 1].prefix_index as int);
        }
    }
}

proof fn lemma_lz78_decode_prefix_push(tokens: Seq<Lz78Token>, t: Lz78Token, n: int)
    requires
        n <= tokens.len(),
    ensures
        lz78_decode_prefix(tokens.push(t), n) == lz78_decode_prefix(tokens, n),
    decreases n,
{
    if n > 0 {
        lemma_lz78_decode_prefix_push(tokens, t, n - 1);
        lemma_phrase_of_push(tokens, t, n);
    }
}

/// Appending a token whose prefix index is already defined keeps the stream
/// well formed; the new token defines the next dictionary index, and the
/// decoded output grows by its prefix's phrase extended by its symbol.
pub proof fn lemma_lz78_push(tokens: Seq<Lz78Token>, t: Lz78Token)
    requires
        lz78_wf(tokens),
        t.prefix_index as int <= tokens.len(),
    ensures
        lz78_wf(tokens.push(t)),
        lz78_decode(tokens.push(t)) == lz78_decode(tokens)
            + phrase_of(tokens, t.prefix_index as int).push(t.symbol),
{
    let ts = tokens.push(t);
    assert forall|i: int| 0 <= i < ts.len() implies #[trigger] lz78_token_ok(ts, i) by {
        if i < tokens.len() {
            assert(ts[i] == tokens[i]);
            assert(lz78_token_ok(tokens, i));
        } else {
            assert(ts[i] == t);
        }
    }
    lemma_lz78_decode_prefix_push(tokens, t, tokens.len() as int);
    lemma_phrase_of_push(tokens, t, t.prefix_index as int);
    assert(ts[tokens.len() as int] == t);
}

/// The dictionary index assigned to the k-th emitted token equals k
/// (1-based; the root is index 0): the phrase at index k is exactly the
/// phrase at that token's prefix index extended by that token's symbol, and
/// it is non-empty. Encoder and decoder both resolve phrases through
/// `phrase_of`, so the decoder's table assignment reconstructs the
/// encoder's index sequence.
pub proof fn lemma_lz78_dictionary_indexing(tokens: Seq<Lz78Token>, k: int)
    requires
        lz78_wf(tokens),
        1 <= k <= tokens.len(),
    ensures
        phrase_of(tokens, k)
            == phrase_of(tokens, tokens[k - 1].prefix_index as int).push(tokens[k - 1].symbol),
        phrase_of(tokens, k).len() >= 1,
{
    assert(lz78_token_ok(tokens, k - 1));
}

/// Every token's (prefix, symbol) pair is new when it is emitted: the
/// encoder emits only when the pair is absent from the dictionary, and
/// each emission inserts it, so no two tokens carry the same pair. The
/// flush token that ends a scan inside a known phrase re-emits an earlier
/// pair, so the property is stated of all tokens but the last.
pub open spec fn fresh_pairs(tokens: Seq<Lz78Token>) -> bool {
    forall|a: int, b: int| 0 <= a < b < tokens.len()
        ==> !((#[trigger] tokens[a]).prefix_index == (#[trigger] tokens[b]).prefix_index
            && tokens[a].symbol == tokens[b].symbol)
}

proof fn lemma_fresh_pairs_push(tokens: Seq<Lz78Token>, t: Lz78Token)
    requires
        fresh_pairs(tokens),
        forall|q: int| 0 <= q < tokens.len()
            ==> !((#[trigger] tokens[q]).prefix_index == t.prefix_index
                && tokens[q].symbol == t.symbol),
    ensures
        fresh_pairs(tokens.push(t)),
{
    let ts = tokens.push(t);
    assert forall|a: int, b: int| 0 <= a < b < ts.len() implies
        !((#[trigger] ts[a]).prefix_index == (#[trigger] ts[b]).prefix_index
            && ts[a].symbol == ts[b].symbol) by {
        assert(ts[a] == tokens[a]);
        if b < tokens.len() {
            assert(ts[b] == tokens[b]);
        } else {
            assert(ts[b] == t);
        }
    }
}

proof fn lemma_fresh_pairs_drop_last(tokens: Seq<Lz78Token>)
    requires
        tokens.len() > 0,
        fresh_pairs(tokens),
    ensures
        fresh_pairs(tokens.drop_last()),
{
    let ts = tokens.drop_last();
    assert forall|a: int, b: int| 0 <= a < b < ts.len() implies
        !((#[trigger] ts[a]).prefix_index == (#[trigger] ts[b]).prefix_index
            && ts[a].symbol == ts[b].symbol) by {
        assert(ts[a] == tokens[a]);
        assert(ts[b] == tokens[b]);
    }
}

/// Incremental-dictionary compression. The dictionary starts as the lone
/// empty root and grows by exactly one entry per emitted token; a scan that
/// ends inside a known phrase is flushed by re-emitting the token that
/// defined that phrase, which decodes to the same bytes. The emitted stream
/// is well formed and decodes to exactly the input.
#[verifier::loop_isolation(false)]
pub fn compress(data: &[u8]) -> (r: Vec<Lz78Token>)
    ensures
        lz78_wf(r@),
        lz78_decode(r@) == data@,
        r@.len() <= data@.len() + 1,
        r@.len() > 0 ==> fresh_pairs(r@.drop_last()),
{
    let mut tokens: Vec<Lz78Token> = Vec::new();
    let mut cur: usize = 0;
    let mut i: usize = 0;
    while i < data.len()
        invariant
            i <= data@.len(),
            lz78_wf(tokens@),
            fresh_pairs(tokens@),
            cur <= tokens@.len(),
            tokens@.len() <= i,
            lz78_decode(tokens@) + phrase_of(tokens@, cur as int) == data@.take(i as int),
        decreases data@.len() - i,
    {
        let b = data[i];
        let mut found: usize = 0;
        let mut j: usize = 0;
        while found == 0 && j < tokens.len()
            invariant
                j <= tokens@.len(),
                found == 0 ==> forall|q: int| 0 <= q < j
                    ==> !((#[trigger] tokens@[q]).prefix_index == cur as u64
                        && tokens@[q].symbol == b),
                found > 0 ==> 1 <= found <= tokens@.len()
                    && tokens@[found - 1].prefix_index == cur as u64
                    && tokens@[found - 1].symbol == b,
            decreases tokens@.len() - j,
        {
            if tokens[j].prefix_index == cur as u64 && tokens[j].symbol == b {
                found = j + 1;
            }
            j += 1;
        }
        if found > 0 {
            proof {
                assert(lz78_token_ok(tokens@, found - 1));
                assert(phrase_of(tokens@, found as int)
                    == phrase_of(tokens@, cur as int).push(b));
                assert(lz78_decode(tokens@) + phrase_of(tokens@, found as int)
                    =~= data@.take(i as int).push(data@[i as int]));
                assert(data@.take(i as int).push(data@[i as int]) =~= data@.take(i as int + 1));
            }
            cur = found;
            i += 1;
        } else {
            let t = Lz78Token { prefix_index: cur as u64, symbol: b };
            proof {
                lemma_lz78_push(tokens@, t);
                lemma_fresh_pairs_push(tokens@, t);
                assert(lz78_decode(tokens@.push(t))
                    =~= data@.take(i as int).push(data@[i as int]));
                assert(data@.take(i as int).push(data@[i as int]) =~= data@.take(i as int + 1));
            }
            tokens.push(t);
            cur = 0;
            i += 1;
        }
    }
    if cur > 0 {
        let t = tokens[cur - 1];
        proof {
            assert(lz78_token_ok(tokens@, cur - 1));
            assert(phrase_of(tokens@, cur as int)
                == phrase_of(tokens@, t.prefix_index as int).push(t.symbol));
            lemma_lz78_push(tokens@, t);
            assert(tokens@.push(t).drop_last() =~= tokens@);
        }
        tokens.push(t);
    } else {
        proof {
            if tokens@.len() > 0 {
                lemma_fresh_pairs_drop_last(tokens@);
            }
        }
    }
    proof {
        assert(data@.take(data@.len() as int) =~= data@);
    }
    tokens
}

/// Replays an incremental-dictionary token stream, maintaining the
/// index-to-phrase table seeded with the empty root. Succeeds exactly on
/// well-formed streams; a token referencing a not-yet-defined index is
/// reported as a format error.
#[verifier::loop_isolation(false)]
pub fn decompress(tokens: &[Lz78Token]) -> (r: Result<Vec<u8>, LzrsError>)
    ensures
        match r {
            Ok(out) => lz78_wf(tokens@) && out@ == lz78_decode(tokens@),
            Err(e) => e == LzrsError::FormatError && !lz78_wf(tokens@),
        },
{
    let mut table: Vec<Vec<u8>> = Vec::new();
    table.push(Vec::new());
    let mut out: Vec<u8> = Vec::new();
    let mut j: usize = 0;
    while j < tokens.len()
        invariant
            j <= tokens@.len(),
            table@.len() == j + 1,
            forall|q: int| 0 <= q < j ==> #[trigger] lz78_token_ok(tokens@, q),
            forall|k: int| 0 <= k <= j ==> (#[trigger] table@[k])@ == phrase_of(tokens@, k),
            out@ == lz78_decode_prefix(tokens@, j as int),
        decreases tokens@.len() - j,
    {
        let t = tokens[j];
        if t.prefix_index > j as u64 {
            proof {
                assert(!lz78_token_ok(tokens@, j as int));
            }
            return Err(LzrsError::FormatError);
        }
        let p = t.prefix_index as usize;
        let mut phrase: Vec<u8> = Vec::new();
        let prefix_phrase = &table[p];
        let mut k: usize = 0;
        while k < prefix_phrase.len()
            invariant
                k <= prefix_phrase@.len(),
                phrase@ == prefix_phrase@.take(k as int),
            decreases prefix_phrase@.len() - k,
        {
            phrase.push(prefix_phrase[k]);
            k += 1;
        }
        proof {
            assert(phrase@ =~= table@[p as int]@);
        }
        phrase.push(t.symbol);
        let mut k2: usize = 0;
        while k2 < phrase.len()
            invariant
                k2 <= phrase@.len(),
                out@ == lz78_decode_prefix(tokens@, j as int) + phrase@.take(k2 as int),
            decreases phrase@.len() - k2,
        {
            out.push(phrase[k2]);
            k2 += 1;
        }
        proof {
            assert(phrase@ == phrase_of(tokens@, p as int).push(t.symbol));
            assert(phrase_of(tokens@, j as int + 1) == phrase_of(tokens@, p as int).push(t.symbol));
            assert(phrase@.take(phrase@.len() as int) =~= phrase@);
            assert(out@ =~= lz78_decode_prefix(tokens@, j as int + 1));
        }
        table.push(phrase);
        j += 1;
    }
    Ok(out)
}

/// The 9-byte wire form of one phrase token: the prefix index as a
/// little-endian `u64`, then the symbol byte.
pub open spec fn lz78_token_bytes(t: Lz78Token) -> Seq<u8> {
    u64_le(t.prefix_index) + seq![t.symbol]
}

/// The token read back from one 9-byte wire form.
pub open spec fn lz78_token_of(s: Seq<u8>) -> Lz78Token {
    Lz78Token { prefix_index: u64_of_le(s.subrange(0, 8)), symbol: s[8] }
}

/// The fixed-width wire form of a whole token stream, tokens in order.
pub open spec fn lz78_stream_bytes(ts: Seq<Lz78Token>) -> Seq<u8>
    decreases ts.len(),
{
    if ts.len() == 0 {
        Seq::empty()
    } else {
        lz78_stream_bytes(ts.drop_last()) + lz78_token_bytes(ts.last())
    }
}

/// The token stream read back from a wire form whose length is a multiple
/// of 9.
pub open spec fn lz78_parse(s: Seq<u8>) -> Seq<Lz78Token>
    decreases s.len(),
{
    if s.len() < 9 {
        Seq::empty()
    } else {
        lz78_parse(s.take(s.len() - 9)).push(lz78_token_of(s.subrange(s.len() - 9, s.len() as int)))
    }
}

/// Reading one token's wire form back restores the token.
pub proof fn lemma_lz78_token_bytes_inverse(t: Lz78Token)
    ensures
        lz78_token_bytes(t).len() == 9,
        lz78_token_of(lz78_token_bytes(t)) == t,
{
    crate::wire::lemma_u64_le_inverse(t.prefix_index);
    assert(lz78_token_bytes(t).subrange(0, 8) =~= u64_le(t.prefix_index));
    assert(lz78_token_bytes(t)[8] == t.symbol);
}

/// The fixed-width serialization of an incremental-dictionary token stream
/// parses back to exactly the same stream.
pub proof fn lemma_lz78_wire_round_trip(ts: Seq<Lz78Token>)
    ensures
        lz78_stream_bytes(ts).len() == 9 * ts.len(),
        lz78_parse(lz78_stream_bytes(ts)) == ts,
    decreases ts.len(),
{
    if ts.len() == 0 {
        assert(lz78_parse(lz78_stream_bytes(ts)) =~= ts);
    } else {
        lemma_lz78_wire_round_trip(ts.drop_last());
        lemma_lz78_token_bytes_inverse(ts.last());
        let s = lz78_stream_bytes(ts);
        assert(s.take(s.len() - 9) =~= lz78_stream_bytes(ts.drop_last()));
        assert(s.subrange(s.len() - 9, s.len() as int) =~= lz78_token_bytes(ts.last()));
        assert(lz78_parse(s) =~= ts);
    }
}

/// Serializes a token stream to its fixed-width wire form.
#[verifier::loop_isolation(false)]
pub fn lz78_tokens_to_bytes(tokens: &Vec<Lz78Token>) -> (r: Vec<u8>)
    ensures
        r@ == lz78_stream_bytes(tokens@),
        r@.len() == 9 * tokens@.len(),
{
    let mut out: Vec<u8> = Vec::new();
    let mut j: usize = 0;
    while j < tokens.len()
        invariant
            j <= tokens@.len(),
            out@ == lz78_stream_bytes(tokens@.take(j as int)),
            out@.len() == 9 * j,
        decreases tokens@.len() - j,
    {
        let t = tokens[j];
        push_u64_le(&mut out, t.prefix_index);
        out.push(t.symbol);
        proof {
            let pre = tokens@.take(j + 1);
            assert(pre.drop_last() =~= tokens@.take(j as int));
            assert(pre.last() == tokens@[j as int]);
            assert(out@ =~= lz78_stream_bytes(pre));
        }
        j += 1;
    }
    proof {
        assert(tokens@.take(tokens@.len() as int) =~= tokens@);
    }
    out
}

/// Decodes a fixed-width wire form into its token stream; a trailing
/// partial token means the stream was cut short.
#[verifier::loop_isolation(false)]
pub fn lz78_tokens_from_bytes(data: &[u8]) -> (r: Result<Vec<Lz78Token>, LzrsError>)
    ensures
        match r {
            Ok(ts) => data@.len() % 9 == 0 && ts@ == lz78_parse(data@),
            Err(e) => e == LzrsError::TruncatedInput && data@.len() % 9 != 0,
        },
{
    if data.len() % 9 != 0 {
        return Err(LzrsError::TruncatedInput);
    }
    let n = data.len() / 9;
    proof {
        vstd::arithmetic::div_mod::lemma_fundamental_div_mod(data@.len() as int, 9);
    }
    let mut ts: Vec<Lz78Token> = Vec::new();
    let mut j: usize = 0;
    while j < n
        invariant
            j <= n,
            9 * n == data@.len(),
            data@.len() % 9 == 0,
            ts@ == lz78_parse(data@.take(9 * j as int)),
        decreases n - j,
    {
        let idx = j * 9;
        let p = crate::wire::read_u64_le(data, idx);
        let sym = data[idx + 8];
        let t = Lz78Token { prefix_index: p, symbol: sym };
        proof {
            let pre = data@.take(9 * (j + 1) as int);
            assert(pre.len() == 9 * j + 9);
            assert(pre.take(pre.len() - 9) =~= data@.take(9 * j as int));
            let sub = pre.subrange(pre.len() - 9, pre.len() as int);
            assert(sub.subrange(0, 8) =~= data@.subrange(idx as int, idx as int + 8));
            assert(sub[8] == data@[9 * j + 8]);
            assert(lz78_token_of(sub) == t);
            assert(lz78_parse(pre) == lz78_parse(data@.take(9 * j as int)).push(lz78_token_of(sub)));
        }
        ts.push(t);
        j += 1;
    }
    proof {
        assert(data@.take(data@.len() as int) =~= data@);
    }
    Ok(ts)
}

} // verus!
