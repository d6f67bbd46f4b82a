use vstd::prelude::*;
use crate::archive::{
    LZRSEntry, signature_bytes, entry_meta_bytes, entries_meta_bytes, entries_meta_size,
    header_size_spec, header_bytes, blobs_bytes, container_bytes, compressed_prefix_sum,
    blob_recovers, lemma_entries_meta_size_nonneg, lemma_entries_meta_size_take,
    lemma_entries_meta_size_mono, lemma_prefix_sum_nonneg,
};
use crate::error::LzrsError;
use crate::obfuscate::{xor_seq, lemma_xor_seq_involution};
use crate::utf8::{is_utf8, check_utf8};
use crate::wire::{
    u32_le, u64_le, u32_of_le, u64_of_le, read_u32_le_xored, read_u64_le_xored,
    lemma_u32_le_inverse, lemma_u64_le_inverse,
};
use crate::lz77;
use crate::lz78;
use crate::lz77::Lz77Token;
use crate::lz78::Lz78Token;

verus! {

/// One recovered file: its stored name bytes and its reconstructed
/// contents.
pub struct DecompressedFileEntry {
    pub name: Vec<u8>,
    pub contents: Vec<u8>,
}

/// The metadata of one parsed entry, as plain values.
pub ghost struct EntryMeta {
    pub compressed_size: u64,
    pub original_size: u64,
    pub data_offset: u64,
    pub name: Seq<u8>,
}

/// The metadata an exec entry carries.
pub open spec fn entry_view(e: LZRSEntry) -> EntryMeta {
    EntryMeta {
        compressed_size: e.compressed_size,
        original_size: e.original_size,
        data_offset: e.data_offset,
        name: e.file_name@,
    }
}

/// The entry views of an exec entry table.
pub open spec fn entry_views(entries: Seq<LZRSEntry>) -> Seq<EntryMeta> {
    entries.map(|i: int, e: LZRSEntry| entry_view(e))
}

/// Parses `n` consecutive entry records starting at `idx`: four obfuscated
/// little-endian `u64` fields, then the obfuscated name bytes, which must
/// be valid text. Returns the records and the position after them.
pub open spec fn parse_entries(bytes: Seq<u8>, salt: u8, idx: int, n: nat)
    -> Result<(Seq<EntryMeta>, int), LzrsError>
    decreases n,
{
    if n == 0 {
        Ok((Seq::empty(), idx))
    } else if idx + 32 > bytes.len() {
        Err(LzrsError::TruncatedInput)
    } else {
        let cs = u64_of_le(xor_seq(bytes.subrange(idx, idx + 8), salt));
        let os = u64_of_le(xor_seq(bytes.subrange(idx + 8, idx + 16), salt));
        let off = u64_of_le(xor_seq(bytes.subrange(idx + 16, idx + 24), salt));
        let nl = u64_of_le(xor_seq(bytes.subrange(idx + 24, idx + 32), salt));
        if idx + 32 + nl > bytes.len() {
            Err(LzrsError::TruncatedInput)
        } else {
            let name = xor_seq(bytes.subrange(idx + 32, idx + 32 + nl), salt);
            if !is_utf8(name) {
                Err(LzrsError::FormatError)
            } else {
                let e = EntryMeta {
                    compressed_size: cs,
                    original_size: os,
                    data_offset: off,
                    name: name,
                };
                match parse_entries(bytes, salt, idx + 32 + nl, (n - 1) as nat) {
                    Ok(rest) => Ok((seq![e] + rest.0, rest.1)),
                    Err(err) => Err(err),
                }
            }
        }
    }
}

/// Parses the container header: the plaintext signature and salt, then the
/// obfuscated algorithm id, entry count, and entry table. A bad or missing
/// signature is a format error; a header cut short is truncated input.
pub open spec fn parse_header(bytes: Seq<u8>) -> Result<(u8, u32, Seq<EntryMeta>), LzrsError> {
    if bytes.len() < 4 || bytes.subrange(0, 4) != signature_bytes() {
        Err(LzrsError::FormatError)
    } else if bytes.len() < 17 {
        Err(LzrsError::TruncatedInput)
    } else {
        let salt = bytes[4];
        let method = u32_of_le(xor_seq(bytes.subrange(5, 9), salt));
        let n = u64_of_le(xor_seq(bytes.subrange(9, 17), salt));
        match parse_entries(bytes, salt, 17, n as nat) {
            Ok(r) => Ok((salt, method, r.0)),
            Err(e) => Err(e),
        }
    }
}

/// Prefixes already-parsed records onto the result of parsing the rest.
pub open spec fn prepend_parsed(pre: Seq<EntryMeta>, r: Result<(Seq<EntryMeta>, int), LzrsError>)
    -> Result<(Seq<EntryMeta>, int), LzrsError> {
    match r {
        Ok(p) => Ok((pre + p.0, p.1)),
        Err(e) => Err(e),
    }
}

/// The first `n` bytes of `s`, or all of `s` if it is shorter: extraction
/// truncates each decoded stream to the recorded original size.
pub open spec fn truncated(s: Seq<u8>, n: u64) -> Seq<u8> {
    if s.len() <= n {
        s
    } else {
        s.take(n as int)
    }
}

/// The bytes recovered for one entry: its blob slice is de-obfuscated,
/// decoded as fixed-width tokens of the declared algorithm, replayed
/// through the matching codec, and truncated to the recorded original
/// size.
pub open spec fn extract_entry(bytes: Seq<u8>, salt: u8, method: u32, e: EntryMeta)
    -> Result<Seq<u8>, LzrsError> {
    if e.data_offset + e.compressed_size > bytes.len() {
        Err(LzrsError::TruncatedInput)
    } else {
        let plain = xor_seq(bytes.subrange(e.data_offset as int, e.data_offset + e.compressed_size), salt);
        if method == 77 {
            if plain.len() % 5 != 0 {
                Err(LzrsError::TruncatedInput)
            } else if !lz77::sw_wf(lz77::lz77_parse(plain)) {
                Err(LzrsError::FormatError)
            } else {
                Ok(truncated(lz77::sw_decode(lz77::lz77_parse(plain)), e.original_size))
            }
        } else if method == 78 {
            if plain.len() % 9 != 0 {
                Err(LzrsError::TruncatedInput)
            } else if !lz78::lz78_wf(lz78::lz78_parse(plain)) {
                Err(LzrsError::FormatError)
            } else {
                Ok(truncated(lz78::lz78_decode(lz78::lz78_parse(plain)), e.original_size))
            }
        } else {
            Err(LzrsError::UnsupportedAlgorithm)
        }
    }
}

/// The recovered (name, contents) pairs of all entries, in entry order;
/// the first failing entry aborts the whole extraction.
pub open spec fn extract_all(bytes: Seq<u8>, salt: u8, method: u32, entries: Seq<EntryMeta>)
    -> Result<Seq<(Seq<u8>, Seq<u8>)>, LzrsError>
    decreases entries.len(),
{
    if entries.len() == 0 {
        Ok(Seq::empty())
    } else {
        match extract_all(bytes, salt, method, entries.drop_last()) {
            Ok(rest) => match extract_entry(bytes, salt, method, entries.last()) {
                Ok(c) => Ok(rest.push((entries.last().name, c))),
                Err(e) => Err(e),
            },
            Err(e) => Err(e),
        }
    }
}

/// Everything a parsed-then-extracted container yields, as plain values.
pub open spec fn archive_extract_spec(bytes: Seq<u8>) -> Result<Seq<(Seq<u8>, Seq<u8>)>, LzrsError> {
    match parse_header(bytes) {
        Ok(h) => extract_all(bytes, h.0, h.1, h.2),
        Err(e) => Err(e),
    }
}

/// The (name, contents) pairs an exec result stands for.
pub open spec fn result_pairs(out: Seq<DecompressedFileEntry>) -> Seq<(Seq<u8>, Seq<u8>)> {
    out.map(|i: int, d: DecompressedFileEntry| (d.name@, d.contents@))
}

#[verifier::loop_isolation(false)]
fn copy_xored(bytes: &[u8], start: usize, end: usize, salt: u8) -> (r: Vec<u8>)
    requires
        start <= end <= bytes@.len(),
    ensures
        r@ == xor_seq(bytes@.subrange(start as int, end as int), salt),
{
    let mut out: Vec<u8> = Vec::new();
    let mut i: usize = start;
    while i < end
        invariant
            start <= i <= end,
            out@ == xor_seq(bytes@.subrange(start as int, end as int), salt).take(i - start),
        decreases end - i,
    {
        out.push(bytes[i] ^ salt);
        assert(out@ =~= xor_seq(bytes@.subrange(start as int, end as int), salt).take(
            i + 1 - start));
        i += 1;
    }
    assert(out@ =~= xor_seq(bytes@.subrange(start as int, end as int), salt));
    out
}

#[verifier::loop_isolation(false)]
fn truncate_to(v: Vec<u8>, n: u64) -> (r: Vec<u8>)
    ensures
        r@ == truncated(v@, n),
{
    if v.len() as u64 <= n {
        return v;
    }
    let keep = n as usize;
    let mut out: Vec<u8> = Vec::new();
    let mut i: usize = 0;
    while i < keep
        invariant
            i <= keep,
            keep == n,
            keep <= v@.len(),
            out@ == v@.take(i as int),
        decreases keep - i,
    {
        out.push(v[i]);
        assert(out@ =~= v@.take(i + 1));
        i += 1;
    }
    out
}

/// Parses the container header, yielding the salt, the declared algorithm
/// id, and the entry table, exactly as the header grammar defines them;
/// any failure leaves nothing extracted.
#[verifier::loop_isolation(false)]
#[verifier::rlimit(80)]
pub fn compose_entries(archive_source: &[u8]) -> (r: Result<(u8, u32, Vec<LZRSEntry>), LzrsError>)
    ensures
        match r {
            Ok(p) => parse_header(archive_source@) == Ok::<_, LzrsError>((p.0, p.1, entry_views(p.2@))),
            Err(e) => parse_header(archive_source@) == Err::<(u8, u32, Seq<EntryMeta>), _>(e),
        },
{
    let bytes_len = archive_source.len();
    if bytes_len < 4 {
        return Err(LzrsError::FormatError);
    }
    proof {
        assert(archive_source@.subrange(0, 4)[0] == archive_source@[0]);
        assert(archive_source@.subrange(0, 4)[1] == archive_source@[1]);
        assert(archive_source@.subrange(0, 4)[2] == archive_source@[2]);
        assert(archive_source@.subrange(0, 4)[3] == archive_source@[3]);
    }
    if !(archive_source[0] == 0x4C && archive_source[1] == 0x5A && archive_source[2] == 0x52
        && archive_source[3] == 0x53) {
        return Err(LzrsError::FormatError);
    }
    proof {
        assert(archive_source@.subrange(0, 4) =~= signature_bytes());
    }
    if bytes_len < 17 {
        return Err(LzrsError::TruncatedInput);
    }
    let salt = archive_source[4];
    let method = read_u32_le_xored(archive_source, 5, salt);
    let count = read_u64_le_xored(archive_source, 9, salt);
    let mut entries: Vec<LZRSEntry> = Vec::new();
    let mut idx: usize = 17;
    let mut k: u64 = 0;
    while k < count
        invariant
            k <= count,
            17 <= idx <= bytes_len,
            entries@.len() == k,
            parse_entries(archive_source@, salt, 17, count as nat) == prepend_parsed(
                entry_views(entries@),
                parse_entries(archive_source@, salt, idx as int, (count - k) as nat),
            ),
        decreases count - k,
    {
        let ghost bs = archive_source@;
        let ghost idx_old = idx as int;
        let ghost rem = (count - k) as nat;
        if bytes_len - idx < 32 {
            proof {
                assert(parse_entries(bs, salt, idx_old, rem)
                    == Err::<(Seq<EntryMeta>, int), _>(LzrsError::TruncatedInput));
            }
            return Err(LzrsError::TruncatedInput);
        }
        let cs = read_u64_le_xored(archive_source, idx, salt);
        let os = read_u64_le_xored(archive_source, idx + 8, salt);
        let off = read_u64_le_xored(archive_source, idx + 16, salt);
        let nl = read_u64_le_xored(archive_source, idx + 24, salt);
        if nl > (bytes_len - idx - 32) as u64 {
            proof {
                assert(parse_entries(bs, salt, idx_old, rem)
                    == Err::<(Seq<EntryMeta>, int), _>(LzrsError::TruncatedInput));
            }
            return Err(LzrsError::TruncatedInput);
        }
        let name_start = idx + 32;
        let name_end = name_start + nl as usize;
        let name = copy_xored(archive_source, name_start, name_end, salt);
        if !check_utf8(&name) {
            proof {
                assert(parse_entries(bs, salt, idx_old, rem)
                    == Err::<(Seq<EntryMeta>, int), _>(LzrsError::FormatError));
            }
            return Err(LzrsError::FormatError);
        }
        let new_entry = LZRSEntry {
            compressed_size: cs,
            original_size: os,
            data_offset: off,
            file_name: name,
        };
        let ghost views_old = entry_views(entries@);
        let ghost ev = entry_view(new_entry);
        entries.push(new_entry);
        idx = name_end;
        k = k + 1;
        proof {
            let views_new = entry_views(entries@);
            assert(views_new =~= views_old.push(ev));
            let x = parse_entries(bs, salt, idx as int, (count - k) as nat);
            assert(parse_entries(bs, salt, idx_old, rem) == prepend_parsed(seq![ev], x));
            if x is Ok {
                assert(views_old + (seq![ev] + x->Ok_0.0) =~= views_new + x->Ok_0.0);
            }
            assert(prepend_parsed(views_old, parse_entries(bs, salt, idx_old, rem))
                == prepend_parsed(views_new, x));
        }
    }
    proof {
        let views = entry_views(entries@);
        assert(parse_entries(archive_source@, salt, idx as int, 0)
            == Ok::<_, LzrsError>((Seq::<EntryMeta>::empty(), idx as int)));
        assert(views + Seq::<EntryMeta>::empty() =~= views);
    }
    Ok((salt, method, entries))
}

proof fn lemma_extract_all_stops(bytes: Seq<u8>, salt: u8, method: u32, views: Seq<EntryMeta>, i: int)
    requires
        0 <= i <= views.len(),
        extract_all(bytes, salt, method, views.take(i)) is Err,
    ensures
        extract_all(bytes, salt, method, views) == extract_all(bytes, salt, method, views.take(i)),
    decreases views.len() - i,
{
    if i < views.len() {
        assert(views.take(i + 1).drop_last() =~= views.take(i));
        lemma_extract_all_stops(bytes, salt, method, views, i + 1);
    } else {
        assert(views.take(i) =~= views);
    }
}

/// Recovers every entry's contents from the container bytes, with the salt
/// and the declared algorithm carried explicitly by the caller; the first
/// failing entry aborts the whole extraction.
#[verifier::loop_isolation(false)]
#[verifier::rlimit(80)]
pub fn decompress_file_payloads(
    archive_contents: &[u8],
    entries: &Vec<LZRSEntry>,
    salt: u8,
    method: u32,
) -> (r: Result<Vec<DecompressedFileEntry>, LzrsError>)
    ensures
        match r {
            Ok(out) => extract_all(archive_contents@, salt, method, entry_views(entries@))
                == Ok::<_, LzrsError>(result_pairs(out@)),
            Err(e) => extract_all(archive_contents@, salt, method, entry_views(entries@))
                == Err::<Seq<(Seq<u8>, Seq<u8>)>, _>(e),
        },
{
    let ghost views = entry_views(entries@);
    let mut out: Vec<DecompressedFileEntry> = Vec::new();
    let mut i: usize = 0;
    proof {
        assert(views.take(0) =~= Seq::<EntryMeta>::empty());
        assert(result_pairs(out@) =~= Seq::<(Seq<u8>, Seq<u8>)>::empty());
    }
    while i < entries.len()
        invariant
            i <= entries@.len(),
            out@.len() == i,
            extract_all(archive_contents@, salt, method, views.take(i as int))
                == Ok::<_, LzrsError>(result_pairs(out@)),
        decreases entries@.len() - i,
    {
        let e = &entries[i];
        let ghost ev = entry_view(*e);
        let ghost bs = archive_contents@;
        proof {
            assert(views.take(i + 1).drop_last() =~= views.take(i as int));
            assert(views.take(i + 1).last() == ev);
        }
        let blen = archive_contents.len() as u64;
        if e.data_offset > blen || e.compressed_size > blen - e.data_offset {
            proof {
                lemma_extract_all_stops(bs, salt, method, views, i + 1);
            }
            return Err(LzrsError::TruncatedInput);
        }
        let start = e.data_offset as usize;
        let end = start + e.compressed_size as usize;
        let plain = copy_xored(archive_contents, start, end, salt);
        let contents: Vec<u8>;
        if method == 77 {
            match lz77::lz77_tokens_from_bytes(plain.as_slice()) {
                Ok(ts) => {
                    match lz77::decompress(ts.as_slice()) {
                        Ok(decoded) => {
                            contents = truncate_to(decoded, e.original_size);
                        }
                        Err(err) => {
                            proof {
                                lemma_extract_all_stops(bs, salt, method, views, i + 1);
                            }
                            return Err(err);
                        }
                    }
                }
                Err(err) => {
                    proof {
                        lemma_extract_all_stops(bs, salt, method, views, i + 1);
                    }
                    return Err(err);
                }
            }
        } else if method == 78 {
            match lz78::lz78_tokens_from_bytes(plain.as_slice()) {
                Ok(ts) => {
                    match lz78::decompress(ts.as_slice()) {
                        Ok(decoded) => {
                            contents = truncate_to(decoded, e.original_size);
                        }
                        Err(err) => {
                            proof {
                                lemma_extract_all_stops(bs, salt, method, views, i + 1);
                            }
                            return Err(err);
                        }
                    }
                }
                Err(err) => {
                    proof {
                        lemma_extract_all_stops(bs, salt, method, views, i + 1);
                    }
                    return Err(err);
                }
            }
        } else {
            proof {
                lemma_extract_all_stops(bs, salt, method, views, i + 1);
            }
            return Err(LzrsError::UnsupportedAlgorithm);
        }
        let d = DecompressedFileEntry {
            name: crate::archive::clone_bytes(&e.file_name),
            contents: contents,
        };
        let ghost pairs_old = result_pairs(out@);
        out.push(d);
        i += 1;
        proof {
            assert(result_pairs(out@) =~= pairs_old.push((ev.name, out@.last().contents@)));
        }
    }
    proof {
        assert(views.take(entries@.len() as int) =~= views);
    }
    Ok(out)
}

/// Parses the header and recovers every entry of the container, entirely
/// in memory; header parsing is all-or-nothing and any failure there
/// leaves nothing extracted.
pub fn extract_archive(archive_payload: &[u8]) -> (r: Result<Vec<DecompressedFileEntry>, LzrsError>)
    ensures
        match r {
            Ok(out) => archive_extract_spec(archive_payload@)
                == Ok::<_, LzrsError>(result_pairs(out@)),
            Err(e) => archive_extract_spec(archive_payload@)
                == Err::<Seq<(Seq<u8>, Seq<u8>)>, _>(e),
        },
{
    match compose_entries(archive_payload) {
        Ok(parsed) => {
            let (salt, method, entries) = parsed;
            decompress_file_payloads(archive_payload, &entries, salt, method)
        }
        Err(e) => Err(e),
    }
}

proof fn lemma_entry_meta_bytes_len(e: LZRSEntry, salt: u8)
    ensures
        entry_meta_bytes(e, salt).len() == 32 + e.file_name@.len(),
{
}

proof fn lemma_entries_meta_bytes_len(entries: Seq<LZRSEntry>, salt: u8)
    ensures
        entries_meta_bytes(entries, salt).len() == entries_meta_size(entries),
    decreases entries.len(),
{
    if entries.len() > 0 {
        lemma_entries_meta_bytes_len(entries.drop_last(), salt);
        lemma_entry_meta_bytes_len(entries.last(), salt);
    }
}

proof fn lemma_header_bytes_len(salt: u8, method: u32, entries: Seq<LZRSEntry>)
    ensures
        header_bytes(salt, method, entries).len() == header_size_spec(entries),
{
    lemma_entries_meta_bytes_len(entries, salt);
}

proof fn lemma_blobs_take_len(blobs: Seq<Seq<u8>>, entries: Seq<LZRSEntry>, i: int)
    requires
        0 <= i <= blobs.len(),
        blobs.len() == entries.len(),
        forall|j: int| 0 <= j < entries.len()
            ==> (#[trigger] entries[j]).compressed_size == blobs[j].len(),
    ensures
        blobs_bytes(blobs.take(i)).len() == compressed_prefix_sum(entries, i),
    decreases i,
{
    if i > 0 {
        lemma_blobs_take_len(blobs, entries, i - 1);
        assert(blobs.take(i).drop_last() =~= blobs.take(i - 1));
        assert(blobs.take(i).last() == blobs[i - 1]);
    } else {
        assert(blobs.take(0) =~= Seq::<Seq<u8>>::empty());
    }
}

proof fn lemma_meta_bytes_slice(entries: Seq<LZRSEntry>, salt: u8, i: int)
    requires
        0 <= i < entries.len(),
    ensures
        entries_meta_bytes(entries, salt).subrange(
            entries_meta_size(entries.take(i)),
            entries_meta_size(entries.take(i + 1)),
        ) == entry_meta_bytes(entries[i], salt),
    decreases entries.len(),
{
    lemma_entries_meta_size_take(entries, i);
    lemma_entries_meta_size_nonneg(entries.take(i));
    lemma_entry_meta_bytes_len(entries[i], salt);
    if i == entries.len() - 1 {
        assert(entries.drop_last() =~= entries.take(i));
        assert(entries.take(i + 1) =~= entries);
        lemma_entries_meta_bytes_len(entries.take(i), salt);
        assert(entries_meta_bytes(entries, salt)
            == entries_meta_bytes(entries.take(i), salt) + entry_meta_bytes(entries[i], salt));
        assert(entries_meta_bytes(entries, salt).subrange(
            entries_meta_size(entries.take(i)),
            entries_meta_size(entries.take(i + 1)),
        ) =~= entry_meta_bytes(entries[i], salt));
    } else {
        lemma_meta_bytes_slice(entries.drop_last(), salt, i);
        assert(entries.drop_last().take(i) =~= entries.take(i));
        assert(entries.drop_last().take(i + 1) =~= entries.take(i + 1));
        lemma_entries_meta_bytes_len(entries.drop_last(), salt);
        lemma_entries_meta_size_mono(entries.drop_last(), i + 1);
        lemma_entries_meta_size_nonneg(entries.take(i + 1));
        assert(entries_meta_bytes(entries, salt).subrange(
            entries_meta_size(entries.take(i)),
            entries_meta_size(entries.take(i + 1)),
        ) =~= entries_meta_bytes(entries.drop_last(), salt).subrange(
            entries_meta_size(entries.take(i)),
            entries_meta_size(entries.take(i + 1)),
        ));
    }
}

proof fn lemma_blobs_bytes_slice(blobs: Seq<Seq<u8>>, i: int)
    requires
        0 <= i < blobs.len(),
    ensures
        blobs_bytes(blobs).subrange(
            blobs_bytes(blobs.take(i)).len() as int,
            blobs_bytes(blobs.take(i)).len() + blobs[i].len() as int,
        ) == blobs[i],
    decreases blobs.len(),
{
    if i == blobs.len() - 1 {
        assert(blobs.drop_last() =~= blobs.take(i));
        assert(blobs_bytes(blobs)
            == blobs_bytes(blobs.take(i)) + blobs[i]);
        assert(blobs_bytes(blobs).subrange(
            blobs_bytes(blobs.take(i)).len() as int,
            blobs_bytes(blobs.take(i)).len() + blobs[i].len() as int,
        ) =~= blobs[i]);
    } else {
        lemma_blobs_bytes_slice(blobs.drop_last(), i);
        assert(blobs.drop_last().take(i) =~= blobs.take(i));
        lemma_blobs_prefix_le(blobs.drop_last(), i + 1);
        assert(blobs.drop_last().take(i + 1) =~= blobs.take(i + 1));
        assert(blobs.take(i + 1).drop_last() =~= blobs.take(i));
        assert(blobs.take(i + 1).last() == blobs[i]);
        assert(blobs_bytes(blobs.take(i + 1))
            == blobs_bytes(blobs.take(i)) + blobs[i]);
        assert(blobs_bytes(blobs).subrange(
            blobs_bytes(blobs.take(i)).len() as int,
            blobs_bytes(blobs.take(i)).len() + blobs[i].len() as int,
        ) =~= blobs_bytes(blobs.drop_last()).subrange(
            blobs_bytes(blobs.take(i)).len() as int,
            blobs_bytes(blobs.take(i)).len() + blobs[i].len() as int,
        ));
    }
}

proof fn lemma_blobs_prefix_le(blobs: Seq<Seq<u8>>, i: int)
    requires
        0 <= i <= blobs.len(),
    ensures
        blobs_bytes(blobs.take(i)).len() <= blobs_bytes(blobs).len(),
    decreases blobs.len() - i,
{
    if i == blobs.len() {
        assert(blobs.take(i) =~= blobs);
    } else {
        assert(blobs.take(i + 1).drop_last() =~= blobs.take(i));
        assert(blobs.take(i + 1).last() == blobs[i]);
        lemma_blobs_prefix_le(blobs, i + 1);
    }
}

proof fn lemma_parse_record(bs: Seq<u8>, salt: u8, e: LZRSEntry, pos: int)
    requires
        0 <= pos,
        pos + 32 + e.file_name@.len() <= bs.len(),
        bs.subrange(pos, pos + 32 + e.file_name@.len()) == entry_meta_bytes(e, salt),
    ensures
        u64_of_le(xor_seq(bs.subrange(pos, pos + 8), salt)) == e.compressed_size,
        u64_of_le(xor_seq(bs.subrange(pos + 8, pos + 16), salt)) == e.original_size,
        u64_of_le(xor_seq(bs.subrange(pos + 16, pos + 24), salt)) == e.data_offset,
        u64_of_le(xor_seq(bs.subrange(pos + 24, pos + 32), salt)) == e.file_name@.len() as u64,
        xor_seq(bs.subrange(pos + 32, pos + 32 + e.file_name@.len()), salt) == e.file_name@,
{
    let em = entry_meta_bytes(e, salt);
    assert(em.subrange(0, 8) =~= xor_seq(u64_le(e.compressed_size), salt));
    assert(em.subrange(8, 16) =~= xor_seq(u64_le(e.original_size), salt));
    assert(em.subrange(16, 24) =~= xor_seq(u64_le(e.data_offset), salt));
    assert(em.subrange(24, 32) =~= xor_seq(u64_le(e.file_name@.len() as u64), salt));
    assert(em.subrange(32, em.len() as int) =~= xor_seq(e.file_name@, salt));
    assert(bs.subrange(pos, pos + 8) =~= em.subrange(0, 8));
    assert(bs.subrange(pos + 8, pos + 16) =~= em.subrange(8, 16));
    assert(bs.subrange(pos + 16, pos + 24) =~= em.subrange(16, 24));
    assert(bs.subrange(pos + 24, pos + 32) =~= em.subrange(24, 32));
    assert(bs.subrange(pos + 32, pos + 32 + e.file_name@.len()) =~= em.subrange(32, em.len() as int));
    lemma_xor_seq_involution(u64_le(e.compressed_size), salt);
    lemma_u64_le_inverse(e.compressed_size);
    lemma_xor_seq_involution(u64_le(e.original_size), salt);
    lemma_u64_le_inverse(e.original_size);
    lemma_xor_seq_involution(u64_le(e.data_offset), salt);
    lemma_u64_le_inverse(e.data_offset);
    lemma_xor_seq_involution(u64_le(e.file_name@.len() as u64), salt);
    lemma_u64_le_inverse(e.file_name@.len() as u64);
    lemma_xor_seq_involution(e.file_name@, salt);
}

#[verifier::rlimit(100)]
proof fn lemma_parse_entries_inverse(bs: Seq<u8>, salt: u8, entries: Seq<LZRSEntry>, i: int)
    requires
        0 <= i <= entries.len(),
        17 + entries_meta_size(entries) <= bs.len(),
        bs.subrange(17, 17 + entries_meta_size(entries)) == entries_meta_bytes(entries, salt),
        forall|j: int| 0 <= j < entries.len() ==> is_utf8((#[trigger] entries[j]).file_name@),
        forall|j: int| 0 <= j < entries.len()
            ==> (#[trigger] entries[j]).file_name@.len() <= 0xFFFFFFFFFFFFFFFFu64,
    ensures
        parse_entries(bs, salt, 17 + entries_meta_size(entries.take(i)),
            (entries.len() - i) as nat)
            == Ok::<_, LzrsError>((
                entry_views(entries).skip(i),
                17 + entries_meta_size(entries),
            )),
    decreases entries.len() - i,
{
    lemma_entries_meta_size_nonneg(entries.take(i));
    lemma_entries_meta_size_mono(entries, i);
    if i == entries.len() {
        assert(entries.take(i) =~= entries);
        assert(entry_views(entries).skip(i) =~= Seq::<EntryMeta>::empty());
    } else {
        let e = entries[i];
        let pos = 17 + entries_meta_size(entries.take(i));
        lemma_entries_meta_size_take(entries, i);
        lemma_entries_meta_size_mono(entries, i + 1);
        lemma_entries_meta_bytes_len(entries, salt);
        lemma_meta_bytes_slice(entries, salt, i);
        assert(bs.subrange(pos, pos + 32 + e.file_name@.len())
            =~= entries_meta_bytes(entries, salt).subrange(
                entries_meta_size(entries.take(i)),
                entries_meta_size(entries.take(i + 1)),
            ));
        lemma_parse_record(bs, salt, e, pos);
        lemma_parse_entries_inverse(bs, salt, entries, i + 1);
        let nl = u64_of_le(xor_seq(bs.subrange(pos + 24, pos + 32), salt));
        assert(nl == e.file_name@.len());
        assert(pos + 32 + nl == 17 + entries_meta_size(entries.take(i + 1)));
        let ev = EntryMeta {
            compressed_size: e.compressed_size,
            original_size: e.original_size,
            data_offset: e.data_offset,
            name: e.file_name@,
        };
        assert(seq![ev] + entry_views(entries).skip(i + 1) =~= entry_views(entries).skip(i));
    }
}

#[verifier::rlimit(100)]
proof fn lemma_extract_all_inverse(
    bs: Seq<u8>,
    salt: u8,
    method: u32,
    entries: Seq<LZRSEntry>,
    blobs: Seq<Seq<u8>>,
    originals: Seq<Seq<u8>>,
    i: int,
)
    requires
        0 <= i <= entries.len(),
        entries.len() == blobs.len(),
        entries.len() == originals.len(),
        bs.len() == header_size_spec(entries) + blobs_bytes(blobs).len(),
        bs.subrange(header_size_spec(entries), bs.len() as int) == blobs_bytes(blobs),
        forall|j: int| 0 <= j < entries.len()
            ==> (#[trigger] entries[j]).compressed_size == blobs[j].len(),
        forall|j: int| 0 <= j < entries.len()
            ==> (#[trigger] entries[j]).original_size == originals[j].len(),
        forall|j: int| 0 <= j < entries.len()
            ==> blob_recovers(#[trigger] blobs[j], salt, method, originals[j]),
        forall|j: int| 0 <= j < entries.len()
            ==> (#[trigger] entries[j]).data_offset
                == header_size_spec(entries) + compressed_prefix_sum(entries, j),
    ensures
        extract_all(bs, salt, method, entry_views(entries).take(i))
            == Ok::<_, LzrsError>(
                Seq::new(i as nat, |j: int| (entries[j].file_name@, originals[j])),
            ),
    decreases i,
{
    if i == 0 {
        assert(entry_views(entries).take(0) =~= Seq::<EntryMeta>::empty());
        assert(Seq::new(0, |j: int| (entries[j].file_name@, originals[j]))
            =~= Seq::<(Seq<u8>, Seq<u8>)>::empty());
    } else {
        lemma_extract_all_inverse(bs, salt, method, entries, blobs, originals, i - 1);
        let views = entry_views(entries);
        assert(views.take(i).drop_last() =~= views.take(i - 1));
        assert(views.take(i).last() == views[i - 1]);
        let k = i - 1;
        lemma_extract_entry_inverse(bs, salt, method, entries, blobs, originals, k);
        assert(views[k].name == entries[k].file_name@);
        assert(Seq::new(i as nat, |j: int| (entries[j].file_name@, originals[j]))
            =~= Seq::new((i - 1) as nat, |j: int| (entries[j].file_name@, originals[j]))
                .push((entries[k].file_name@, originals[k])));
    }
}

#[verifier::rlimit(100)]
proof fn lemma_extract_entry_inverse(
    bs: Seq<u8>,
    salt: u8,
    method: u32,
    entries: Seq<LZRSEntry>,
    blobs: Seq<Seq<u8>>,
    originals: Seq<Seq<u8>>,
    k: int,
)
    requires
        0 <= k < entries.len(),
        entries.len() == blobs.len(),
        entries.len() == originals.len(),
        bs.len() == header_size_spec(entries) + blobs_bytes(blobs).len(),
        bs.subrange(header_size_spec(entries), bs.len() as int) == blobs_bytes(blobs),
        forall|j: int| 0 <= j < entries.len()
            ==> (#[trigger] entries[j]).compressed_size == blobs[j].len(),
        forall|j: int| 0 <= j < entries.len()
            ==> (#[trigger] entries[j]).original_size == originals[j].len(),
        forall|j: int| 0 <= j < entries.len()
            ==> blob_recovers(#[trigger] blobs[j], salt, method, originals[j]),
        forall|j: int| 0 <= j < entries.len()
            ==> (#[trigger] entries[j]).data_offset
                == header_size_spec(entries) + compressed_prefix_sum(entries, j),
    ensures
        extract_entry(bs, salt, method, entry_views(entries)[k]) == Ok::<_, LzrsError>(originals[k]),
{
    let ev = entry_views(entries)[k];
    lemma_entry_slice(bs, entries, blobs, k);
    lemma_blob_extract(bs, salt, method, ev, blobs[k], originals[k]);
}

proof fn lemma_entry_slice(bs: Seq<u8>, entries: Seq<LZRSEntry>, blobs: Seq<Seq<u8>>, k: int)
    requires
        0 <= k < entries.len(),
        entries.len() == blobs.len(),
        bs.len() == header_size_spec(entries) + blobs_bytes(blobs).len(),
        bs.subrange(header_size_spec(entries), bs.len() as int) == blobs_bytes(blobs),
        forall|j: int| 0 <= j < entries.len()
            ==> (#[trigger] entries[j]).compressed_size == blobs[j].len(),
        entries[k].data_offset
            == header_size_spec(entries) + compressed_prefix_sum(entries, k),
    ensures
        entries[k].data_offset + entries[k].compressed_size <= bs.len(),
        bs.subrange(
            entries[k].data_offset as int,
            entries[k].data_offset + entries[k].compressed_size,
        ) == blobs[k],
{
    let hs = header_size_spec(entries);
    lemma_entries_meta_size_nonneg(entries);
    lemma_blobs_take_len(blobs, entries, k);
    lemma_blobs_take_len(blobs, entries, k + 1);
    assert(blobs.take(k + 1).drop_last() =~= blobs.take(k));
    assert(blobs.take(k + 1).last() == blobs[k]);
    lemma_blobs_prefix_le(blobs, k + 1);
    lemma_blobs_bytes_slice(blobs, k);
    lemma_prefix_sum_nonneg(entries, k);
    let ps = compressed_prefix_sum(entries, k);
    lemma_container_slice(bs, hs, blobs_bytes(blobs), ps, ps + blobs[k].len() as int);
    assert(blobs_bytes(blobs).subrange(ps, ps + blobs[k].len() as int) == blobs[k]);
    assert(entries[k].data_offset as int == hs + ps);
}

proof fn lemma_blob_extract(
    bs: Seq<u8>,
    salt: u8,
    method: u32,
    ev: EntryMeta,
    blob: Seq<u8>,
    orig: Seq<u8>,
)
    requires
        ev.data_offset + ev.compressed_size <= bs.len(),
        ev.compressed_size == blob.len(),
        ev.original_size == orig.len(),
        bs.subrange(ev.data_offset as int, ev.data_offset + ev.compressed_size) == blob,
        blob_recovers(blob, salt, method, orig),
    ensures
        extract_entry(bs, salt, method, ev) == Ok::<_, LzrsError>(orig),
{
    let plain = xor_seq(blob, salt);
    if method == 77 {
        assert(truncated(lz77::sw_decode(lz77::lz77_parse(plain)), ev.original_size) == orig);
    } else {
        assert(truncated(lz78::lz78_decode(lz78::lz78_parse(plain)), ev.original_size) == orig);
    }
}

proof fn lemma_container_slice(bs: Seq<u8>, hs: int, bb: Seq<u8>, a: int, b: int)
    requires
        0 <= hs,
        0 <= a <= b <= bb.len(),
        bs.len() == hs + bb.len(),
        bs.subrange(hs, bs.len() as int) == bb,
    ensures
        bs.subrange(hs + a, hs + b) == bb.subrange(a, b),
{
    assert forall|t: int| 0 <= t < b - a implies
        #[trigger] bs.subrange(hs + a, hs + b)[t] == bb.subrange(a, b)[t] by {
        assert(bb[a + t] == bs.subrange(hs, bs.len() as int)[a + t]);
        assert(bs.subrange(hs, bs.len() as int)[a + t] == bs[hs + a + t]);
        assert(bs.subrange(hs + a, hs + b)[t] == bs[hs + a + t]);
        assert(bb.subrange(a, b)[t] == bb[a + t]);
    }
    assert(bs.subrange(hs + a, hs + b) =~= bb.subrange(a, b));
}

/// Container round trip: a container serialized from consistent parts —
/// one salt, one supported algorithm id, an entry table whose offsets
/// follow the header and the preceding compressed sizes, and one stored
/// blob per entry that decodes to that entry's original content — parses
/// and extracts back to exactly the original (name, contents) pairs, in
/// entry order.
#[verifier::rlimit(100)]
pub proof fn lemma_container_round_trip(
    salt: u8,
    method: u32,
    entries: Seq<LZRSEntry>,
    blobs: Seq<Seq<u8>>,
    originals: Seq<Seq<u8>>,
)
    requires
        method == 77 || method == 78,
        entries.len() == blobs.len(),
        entries.len() == originals.len(),
        entries.len() <= 0xFFFFFFFFFFFFFFFFu64,
        forall|j: int| 0 <= j < entries.len()
            ==> (#[trigger] entries[j]).compressed_size == blobs[j].len(),
        forall|j: int| 0 <= j < entries.len()
            ==> (#[trigger] entries[j]).original_size == originals[j].len(),
        forall|j: int| 0 <= j < entries.len()
            ==> blob_recovers(#[trigger] blobs[j], salt, method, originals[j]),
        forall|j: int| 0 <= j < entries.len()
            ==> (#[trigger] entries[j]).data_offset
                == header_size_spec(entries) + compressed_prefix_sum(entries, j),
        forall|j: int| 0 <= j < entries.len() ==> is_utf8((#[trigger] entries[j]).file_name@),
        forall|j: int| 0 <= j < entries.len()
            ==> (#[trigger] entries[j]).file_name@.len() <= 0xFFFFFFFFFFFFFFFFu64,
    ensures
        archive_extract_spec(container_bytes(salt, method, entries, blobs))
            == Ok::<_, LzrsError>(
                Seq::new(entries.len(), |j: int| (entries[j].file_name@, originals[j])),
            ),
{
    let b = blobs_bytes(blobs);
    let bs = container_bytes(salt, method, entries, blobs);
    let hs = header_size_spec(entries);
    lemma_header_bytes_len(salt, method, entries);
    lemma_parse_header_inverse(salt, method, entries, blobs);
    assert(bs.subrange(hs, bs.len() as int) =~= b);
    lemma_extract_all_inverse(bs, salt, method, entries, blobs, originals,
        entries.len() as int);
    assert(entry_views(entries).take(entries.len() as int) =~= entry_views(entries));
}

#[verifier::rlimit(100)]
proof fn lemma_parse_header_inverse(
    salt: u8,
    method: u32,
    entries: Seq<LZRSEntry>,
    blobs: Seq<Seq<u8>>,
)
    requires
        entries.len() <= 0xFFFFFFFFFFFFFFFFu64,
        forall|j: int| 0 <= j < entries.len() ==> is_utf8((#[trigger] entries[j]).file_name@),
        forall|j: int| 0 <= j < entries.len()
            ==> (#[trigger] entries[j]).file_name@.len() <= 0xFFFFFFFFFFFFFFFFu64,
    ensures
        parse_header(container_bytes(salt, method, entries, blobs))
            == Ok::<_, LzrsError>((salt, method, entry_views(entries))),
{
    let h = header_bytes(salt, method, entries);
    let b = blobs_bytes(blobs);
    let bs = container_bytes(salt, method, entries, blobs);
    let hs = header_size_spec(entries);
    lemma_header_bytes_len(salt, method, entries);
    lemma_entries_meta_bytes_len(entries, salt);
    lemma_entries_meta_size_nonneg(entries);
    assert(bs.len() == hs + b.len());
    assert(h.subrange(0, 4) =~= signature_bytes());
    assert(bs.subrange(0, 4) =~= signature_bytes());
    assert(bs[4] == salt);
    assert(h.subrange(5, 9) =~= xor_seq(u32_le(method), salt));
    assert(bs.subrange(5, 9) =~= h.subrange(5, 9));
    lemma_xor_seq_involution(u32_le(method), salt);
    lemma_u32_le_inverse(method);
    assert(h.subrange(9, 17) =~= xor_seq(u64_le(entries.len() as u64), salt));
    assert(bs.subrange(9, 17) =~= h.subrange(9, 17));
    lemma_xor_seq_involution(u64_le(entries.len() as u64), salt);
    lemma_u64_le_inverse(entries.len() as u64);
    assert(u64_of_le(xor_seq(bs.subrange(9, 17), salt)) == entries.len() as u64);
    assert(h.subrange(17, hs) =~= entries_meta_bytes(entries, salt));
    assert(bs.subrange(17, hs) =~= h.subrange(17, hs));
    assert(entries.take(0) =~= Seq::<LZRSEntry>::empty());
    lemma_parse_entries_inverse(bs, salt, entries, 0);
    assert(entry_views(entries).skip(0) =~= entry_views(entries));
}

/// Fixed-width byte serialization of a token stream.
pub trait IntoBytes {
    /// The wire form the serialization must produce.
    spec fn wire_bytes(&self) -> Seq<u8>;

    fn to_bytes(&self) -> (r: Vec<u8>)
        ensures
            r@ == self.wire_bytes(),
    ;
}

impl IntoBytes for Vec<Lz77Token> {
    open spec fn wire_bytes(&self) -> Seq<u8> {
        lz77::lz77_stream_bytes(self@)
    }

    fn to_bytes(&self) -> (r: Vec<u8>) {
        lz77::lz77_tokens_to_bytes(self)
    }
}

impl IntoBytes for Vec<Lz78Token> {
    open spec fn wire_bytes(&self) -> Seq<u8> {
        lz78::lz78_stream_bytes(self@)
    }

    fn to_bytes(&self) -> (r: Vec<u8>) {
        lz78::lz78_tokens_to_bytes(self)
    }
}

} // verus!
