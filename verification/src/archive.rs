use vstd::prelude::*;
use crate::args::{CompressingMode, method_id};
use crate::obfuscate::{xor_seq, xor_bytes, lemma_xor_seq_involution};
use crate::wire::{u32_le, u64_le};
use crate::lz77;
use crate::lz78;
use crate::{SEARCH_BUFFER_SIZE, LOOKAHEAD_BUFFER_SIZE};

verus! {

/// One archived file's metadata: sizes, the absolute offset of its blob,
/// and its name's bytes (UTF-8 text on the wire).
pub struct LZRSEntry {
    pub compressed_size: u64,
    pub original_size: u64,
    pub data_offset: u64,
    pub file_name: Vec<u8>,
}

/// The 4-byte plaintext container signature, "LZRS".
pub open spec fn signature_bytes() -> Seq<u8> {
    seq![0x4Cu8, 0x5Au8, 0x52u8, 0x53u8]
}

/// The wire form of one entry's metadata record: compressed size, original
/// size, data offset and name length as little-endian `u64`, then the name
/// bytes, every byte XORed with the salt.
pub open spec fn entry_meta_bytes(e: LZRSEntry, salt: u8) -> Seq<u8> {
    xor_seq(u64_le(e.compressed_size), salt) + xor_seq(u64_le(e.original_size), salt)
        + xor_seq(u64_le(e.data_offset), salt)
        + xor_seq(u64_le(e.file_name@.len() as u64), salt) + xor_seq(e.file_name@, salt)
}

/// The wire form of the whole entry metadata table, entries in insertion
/// order.
pub open spec fn entries_meta_bytes(entries: Seq<LZRSEntry>, salt: u8) -> Seq<u8>
    decreases entries.len(),
{
    if entries.len() == 0 {
        Seq::empty()
    } else {
        entries_meta_bytes(entries.drop_last(), salt) + entry_meta_bytes(entries.last(), salt)
    }
}

/// The container header: signature and salt in plaintext, then the
/// algorithm id, entry count and metadata table, obfuscated.
pub open spec fn header_bytes(salt: u8, method: u32, entries: Seq<LZRSEntry>) -> Seq<u8> {
    signature_bytes() + seq![salt] + xor_seq(u32_le(method), salt)
        + xor_seq(u64_le(entries.len() as u64), salt) + entries_meta_bytes(entries, salt)
}

/// The concatenation of the stored blobs, in entry order.
pub open spec fn blobs_bytes(blobs: Seq<Seq<u8>>) -> Seq<u8>
    decreases blobs.len(),
{
    if blobs.len() == 0 {
        Seq::empty()
    } else {
        blobs_bytes(blobs.drop_last()) + blobs.last()
    }
}

/// The complete container: header, metadata table, then the blobs.
pub open spec fn container_bytes(salt: u8, method: u32, entries: Seq<LZRSEntry>, blobs: Seq<Seq<u8>>)
    -> Seq<u8> {
    header_bytes(salt, method, entries) + blobs_bytes(blobs)
}

/// Byte size of the metadata table: 32 fixed bytes plus the name bytes,
/// per entry.
pub open spec fn entries_meta_size(entries: Seq<LZRSEntry>) -> int
    decreases entries.len(),
{
    if entries.len() == 0 {
        0
    } else {
        entries_meta_size(entries.drop_last()) + 32 + entries.last().file_name@.len()
    }
}

/// Header size: signature, salt, algorithm id, entry count, and every
/// entry's fixed fields and name bytes.
pub open spec fn header_size_spec(entries: Seq<LZRSEntry>) -> int {
    17 + entries_meta_size(entries)
}

/// Sum of the compressed sizes of the first `i` entries, in insertion
/// order.
pub open spec fn compressed_prefix_sum(entries: Seq<LZRSEntry>, i: int) -> int
    decreases i,
{
    if i <= 0 {
        0
    } else {
        compressed_prefix_sum(entries, i - 1) + entries[i - 1].compressed_size
    }
}

/// After de-obfuscation with the container's salt, a stored blob is the
/// fixed-width wire form of a well-formed token stream of the container's
/// algorithm that decodes to exactly `orig`.
pub open spec fn blob_recovers(blob: Seq<u8>, salt: u8, method: u32, orig: Seq<u8>) -> bool {
    plain_recovers(xor_seq(blob, salt), method, orig)
}

/// A de-obfuscated blob is a token stream wire form decoding to `orig`.
pub open spec fn plain_recovers(plain: Seq<u8>, method: u32, orig: Seq<u8>) -> bool {
    if method == 77 {
        &&& plain.len() % 5 == 0
        &&& lz77::sw_wf(lz77::lz77_parse(plain))
        &&& lz77::sw_decode(lz77::lz77_parse(plain)) == orig
    } else if method == 78 {
        &&& plain.len() % 9 == 0
        &&& lz78::lz78_wf(lz78::lz78_parse(plain))
        &&& lz78::lz78_decode(lz78::lz78_parse(plain)) == orig
    } else {
        false
    }
}

pub(crate) proof fn lemma_entries_meta_size_nonneg(entries: Seq<LZRSEntry>)
    ensures
        entries_meta_size(entries) >= 0,
    decreases entries.len(),
{
    if entries.len() > 0 {
        lemma_entries_meta_size_nonneg(entries.drop_last());
    }
}

pub(crate) proof fn lemma_entries_meta_size_take(entries: Seq<LZRSEntry>, i: int)
    requires
        0 <= i < entries.len(),
    ensures
        entries_meta_size(entries.take(i + 1))
            == entries_meta_size(entries.take(i)) + 32 + entries[i].file_name@.len(),
{
    assert(entries.take(i + 1).drop_last() =~= entries.take(i));
    assert(entries.take(i + 1).last() == entries[i]);
}

pub(crate) proof fn lemma_entries_meta_size_mono(entries: Seq<LZRSEntry>, i: int)
    requires
        0 <= i <= entries.len(),
    ensures
        entries_meta_size(entries.take(i)) <= entries_meta_size(entries),
    decreases entries.len() - i,
{
    if i == entries.len() {
        assert(entries.take(i) =~= entries);
    } else {
        lemma_entries_meta_size_take(entries, i);
        lemma_entries_meta_size_nonneg(entries.take(i + 1));
        lemma_entries_meta_size_mono(entries, i + 1);
        assert(entries_meta_size(entries.take(i))
            <= entries_meta_size(entries.take(i + 1)));
    }
}

pub(crate) proof fn lemma_prefix_sum_mono(entries: Seq<LZRSEntry>, i: int)
    requires
        0 <= i <= entries.len(),
    ensures
        compressed_prefix_sum(entries, i) <= compressed_prefix_sum(entries, entries.len() as int),
        compressed_prefix_sum(entries, i) >= 0,
    decreases entries.len() - i,
{
    if i < entries.len() {
        lemma_prefix_sum_mono(entries, i + 1);
    }
    if i > 0 {
        lemma_prefix_sum_nonneg(entries, i);
    }
}

pub(crate) proof fn lemma_prefix_sum_nonneg(entries: Seq<LZRSEntry>, i: int)
    ensures
        compressed_prefix_sum(entries, i) >= 0,
    decreases i,
{
    if i > 0 {
        lemma_prefix_sum_nonneg(entries, i - 1);
    }
}

/// Two entry tables that agree on every name length have metadata tables
/// of the same size.
proof fn lemma_entries_meta_size_congruent(a: Seq<LZRSEntry>, b: Seq<LZRSEntry>)
    requires
        a.len() == b.len(),
        forall|i: int| 0 <= i < a.len()
            ==> (#[trigger] a[i]).file_name@.len() == b[i].file_name@.len(),
    ensures
        entries_meta_size(a) == entries_meta_size(b),
    decreases a.len(),
{
    if a.len() > 0 {
        assert(a.last().file_name@.len() == b.last().file_name@.len());
        lemma_entries_meta_size_congruent(a.drop_last(), b.drop_last());
    }
}

/// Relies on rand::random_range: a value sampled uniformly from the given
/// range; over 1..=255 the result is a valid non-zero salt.
#[verifier::external_body]
fn draw_salt() -> (r: u8)
    ensures
        1 <= r <= 255,
{
    rand::random_range(1u8..=255u8)
}

pub(crate) fn clone_bytes(src: &Vec<u8>) -> (r: Vec<u8>)
    ensures
        r@ == src@,
{
    let mut out: Vec<u8> = Vec::new();
    let mut i: usize = 0;
    while i < src.len()
        invariant
            i <= src@.len(),
            out@ == src@.take(i as int),
        decreases src@.len() - i,
    {
        out.push(src[i]);
        assert(out@ =~= src@.take(i + 1));
        i += 1;
    }
    assert(out@ =~= src@);
    out
}

fn extend_bytes(out: &mut Vec<u8>, src: &Vec<u8>)
    ensures
        final(out)@ == old(out)@ + src@,
{
    let mut i: usize = 0;
    while i < src.len()
        invariant
            i <= src@.len(),
            out@ == old(out)@ + src@.take(i as int),
        decreases src@.len() - i,
    {
        out.push(src[i]);
        assert(out@ =~= old(out)@ + src@.take(i + 1));
        i += 1;
    }
    assert(out@ =~= old(out)@ + src@);
}

fn extend_bytes_xored(out: &mut Vec<u8>, src: &Vec<u8>, salt: u8)
    ensures
        final(out)@ == old(out)@ + xor_seq(src@, salt),
{
    let mut i: usize = 0;
    while i < src.len()
        invariant
            i <= src@.len(),
            out@ == old(out)@ + xor_seq(src@, salt).take(i as int),
        decreases src@.len() - i,
    {
        out.push(src[i] ^ salt);
        assert(out@ =~= old(out)@ + xor_seq(src@, salt).take(i + 1));
        i += 1;
    }
    assert(out@ =~= old(out)@ + xor_seq(src@, salt));
}

/// Accumulates compressed entries and obfuscated blobs, finalizes offsets,
/// and emits the container bytes. The ghost `originals` records the raw
/// bytes each blob was compressed from, so that well-formedness ties every
/// stored blob to the content it must reproduce.
pub struct LZRSArchiveBuilder {
    pub entries: Vec<LZRSEntry>,
    pub random_salt: u8,
    pub compression_method: u32,
    pub compressed_blobs: Vec<Vec<u8>>,
    pub originals: Ghost<Seq<Seq<u8>>>,
}

impl LZRSArchiveBuilder {
    /// The stored blobs as byte sequences.
    pub open spec fn blobs_view(&self) -> Seq<Seq<u8>> {
        self.compressed_blobs@.map(|i: int, b: Vec<u8>| b@)
    }

    /// Total container size: header plus every blob.
    pub open spec fn total_size(&self) -> int {
        header_size_spec(self.entries@)
            + compressed_prefix_sum(self.entries@, self.entries@.len() as int)
    }

    /// The builder's invariant: a valid salt; one blob and one recorded
    /// original per entry; each entry's sizes match its blob and original;
    /// each blob de-obfuscates to a token stream that decodes to its
    /// original; and the finished container fits the u64 offset space.
    pub open spec fn wf(&self) -> bool {
        &&& 1 <= self.random_salt <= 255
        &&& self.compressed_blobs@.len() == self.entries@.len()
        &&& self.originals@.len() == self.entries@.len()
        &&& forall|i: int| 0 <= i < self.entries@.len()
            ==> (#[trigger] self.entries@[i]).compressed_size == self.compressed_blobs@[i]@.len()
        &&& forall|i: int| 0 <= i < self.entries@.len()
            ==> (#[trigger] self.entries@[i]).original_size == self.originals@[i].len()
        &&& forall|i: int| 0 <= i < self.entries@.len()
            ==> blob_recovers(
                (#[trigger] self.compressed_blobs@[i])@,
                self.random_salt,
                self.compression_method,
                self.originals@[i],
            )
        &&& self.total_size() <= u64::MAX
    }

    /// Creates an empty builder with a freshly drawn non-zero salt and no
    /// algorithm selected yet.
    pub fn new() -> (r: Self)
        ensures
            r.wf(),
            r.entries@.len() == 0,
            r.originals@.len() == 0,
            r.compression_method == 0,
            1 <= r.random_salt <= 255,
    {
        let r = LZRSArchiveBuilder {
            entries: Vec::new(),
            random_salt: draw_salt(),
            compression_method: 0,
            compressed_blobs: Vec::new(),
            originals: Ghost(Seq::empty()),
        };
        r
    }

    /// Records the container's single algorithm id, 77 for the sliding
    /// window and 78 for the incremental dictionary. The choice is made
    /// before any payload is added.
    pub fn set_compression_method(&mut self, compressing_mode: CompressingMode)
        requires
            old(self).wf(),
            old(self).entries@.len() == 0,
        ensures
            final(self).wf(),
            final(self).compression_method == method_id(compressing_mode),
            final(self).entries == old(self).entries,
            final(self).compressed_blobs == old(self).compressed_blobs,
            final(self).originals == old(self).originals,
            final(self).random_salt == old(self).random_salt,
    {
        self.compression_method = match compressing_mode {
            CompressingMode::LZ77 => 77,
            CompressingMode::LZ78 => 78,
        };
    }

    /// Header size of the container being built.
    #[verifier::loop_isolation(false)]
    pub fn header_size(&self) -> (r: u64)
        requires
            self.wf(),
        ensures
            r == header_size_spec(self.entries@),
    {
        let mut size: u64 = 17;
        let mut i: usize = 0;
        proof {
            lemma_prefix_sum_nonneg(self.entries@, self.entries@.len() as int);
        }
        while i < self.entries.len()
            invariant
                i <= self.entries@.len(),
                size == 17 + entries_meta_size(self.entries@.take(i as int)),
            decreases self.entries@.len() - i,
        {
            proof {
                lemma_entries_meta_size_take(self.entries@, i as int);
                lemma_entries_meta_size_mono(self.entries@, i as int + 1);
            }
            let name_len = self.entries[i].file_name.len();
            size = size + 32 + name_len as u64;
            i += 1;
        }
        proof {
            assert(self.entries@.take(self.entries@.len() as int) =~= self.entries@);
        }
        size
    }

    /// Assigns every entry's absolute data offset: the header size plus the
    /// compressed sizes of all strictly preceding entries, in insertion
    /// order.
    #[verifier::loop_isolation(false)]
    pub fn finalize_offsets(&mut self)
        requires
            old(self).wf(),
        ensures
            final(self).wf(),
            final(self).entries@.len() == old(self).entries@.len(),
            forall|i: int| 0 <= i < final(self).entries@.len()
                ==> (#[trigger] final(self).entries@[i]).data_offset
                    == header_size_spec(final(self).entries@)
                        + compressed_prefix_sum(final(self).entries@, i),
            forall|i: int| 0 <= i < final(self).entries@.len() ==> {
                &&& (#[trigger] final(self).entries@[i]).compressed_size
                    == old(self).entries@[i].compressed_size
                &&& final(self).entries@[i].original_size == old(self).entries@[i].original_size
                &&& final(self).entries@[i].file_name@ == old(self).entries@[i].file_name@
            },
            final(self).random_salt == old(self).random_salt,
            final(self).compression_method == old(self).compression_method,
            final(self).compressed_blobs == old(self).compressed_blobs,
            final(self).originals == old(self).originals,
    {
        let hs = self.header_size();
        let mut new_entries: Vec<LZRSEntry> = Vec::new();
        let mut offset: u64 = hs;
        let mut i: usize = 0;
        proof {
            lemma_prefix_sum_mono(self.entries@, 0);
        }
        while i < self.entries.len()
            invariant
                i <= self.entries@.len(),
                new_entries@.len() == i,
                offset == hs + compressed_prefix_sum(self.entries@, i as int),
                forall|j: int| 0 <= j < i ==> {
                    &&& (#[trigger] new_entries@[j]).compressed_size
                        == self.entries@[j].compressed_size
                    &&& new_entries@[j].original_size == self.entries@[j].original_size
                    &&& new_entries@[j].file_name@ == self.entries@[j].file_name@
                    &&& new_entries@[j].data_offset
                        == hs + compressed_prefix_sum(self.entries@, j)
                },
            decreases self.entries@.len() - i,
        {
            proof {
                lemma_prefix_sum_mono(self.entries@, i as int + 1);
            }
            let e = &self.entries[i];
            let name_copy = clone_bytes(&e.file_name);
            new_entries.push(LZRSEntry {
                compressed_size: e.compressed_size,
                original_size: e.original_size,
                data_offset: offset,
                file_name: name_copy,
            });
            offset = offset + e.compressed_size;
            i += 1;
        }
        proof {
            lemma_entries_meta_size_congruent(new_entries@, self.entries@);
        }
        self.entries = new_entries;
        proof {
            let es = self.entries@;
            let os = old(self).entries@;
            assert forall|i: int| 0 <= i < es.len()
                implies #[trigger] compressed_prefix_sum(es, i) == compressed_prefix_sum(os, i) by {
                lemma_prefix_sum_congruent(es, os, i);
            }
            lemma_prefix_sum_congruent(es, os, es.len() as int);
        }
    }
}

/// Compresses one payload through the chosen codec and serializes the
/// tokens to their fixed-width wire form.
fn compress_payload(data: &[u8], compressing_mode: CompressingMode) -> (r: Vec<u8>)
    ensures
        plain_recovers(r@, method_id(compressing_mode), data@),
        r@.len() <= 9 * (data@.len() + 1),
        compressing_mode is LZ77 ==> lz77::sw_greedy(
            data@,
            SEARCH_BUFFER_SIZE as int,
            LOOKAHEAD_BUFFER_SIZE as int,
            lz77::lz77_parse(r@),
        ),
        compressing_mode is LZ78 && lz78::lz78_parse(r@).len() > 0
            ==> lz78::fresh_pairs(lz78::lz78_parse(r@).drop_last()),
{
    match compressing_mode {
        CompressingMode::LZ77 => {
            let toks = lz77::compress(data, SEARCH_BUFFER_SIZE, LOOKAHEAD_BUFFER_SIZE);
            let plain = lz77::lz77_tokens_to_bytes(&toks);
            proof {
                lz77::lemma_lz77_wire_round_trip(toks@);
            }
            plain
        }
        CompressingMode::LZ78 => {
            let toks = lz78::compress(data);
            let plain = lz78::lz78_tokens_to_bytes(&toks);
            proof {
                lz78::lemma_lz78_wire_round_trip(toks@);
            }
            plain
        }
    }
}

impl LZRSArchiveBuilder {
    #[verifier::loop_isolation(false)]
    fn total_size_exec(&self) -> (r: u64)
        requires
            self.wf(),
        ensures
            r == self.total_size(),
    {
        let hs = self.header_size();
        let mut size: u64 = hs;
        let mut i: usize = 0;
        while i < self.entries.len()
            invariant
                i <= self.entries@.len(),
                size == header_size_spec(self.entries@)
                    + compressed_prefix_sum(self.entries@, i as int),
            decreases self.entries@.len() - i,
        {
            proof {
                lemma_prefix_sum_mono(self.entries@, i as int + 1);
            }
            size = size + self.entries[i].compressed_size;
            i += 1;
        }
        size
    }

    /// Compresses `data` through the container's chosen codec, obfuscates
    /// the resulting blob with the salt, and buffers it with its metadata;
    /// the data offset is assigned at finalization. Returns false, leaving
    /// the builder unchanged, only when even this entry's worst-case size
    /// no longer fits the container's u64 offset space.
    pub fn add_file(&mut self, name: Vec<u8>, data: &[u8], compressing_mode: CompressingMode)
        -> (r: bool)
        requires
            old(self).wf(),
            old(self).compression_method == method_id(compressing_mode),
        ensures
            final(self).wf(),
            final(self).random_salt == old(self).random_salt,
            final(self).compression_method == old(self).compression_method,
            r ==> {
                &&& final(self).entries@.len() == old(self).entries@.len() + 1
                &&& final(self).entries@
                    == old(self).entries@.push(final(self).entries@.last())
                &&& final(self).entries@.last().file_name@ == name@
                &&& final(self).entries@.last().original_size == data@.len()
                &&& final(self).entries@.last().data_offset == 0
                &&& final(self).originals@ == old(self).originals@.push(data@)
                &&& final(self).compressed_blobs@
                    == old(self).compressed_blobs@.push(final(self).compressed_blobs@.last())
                &&& final(self).entries@.last().compressed_size
                    == final(self).compressed_blobs@.last()@.len()
                &&& blob_recovers(
                    final(self).compressed_blobs@.last()@,
                    old(self).random_salt,
                    old(self).compression_method,
                    data@,
                )
                &&& (old(self).compression_method == 77 ==> lz77::sw_greedy(
                    data@,
                    SEARCH_BUFFER_SIZE as int,
                    LOOKAHEAD_BUFFER_SIZE as int,
                    lz77::lz77_parse(xor_seq(
                        final(self).compressed_blobs@.last()@,
                        old(self).random_salt,
                    )),
                ))
                &&& (old(self).compression_method == 78 && lz78::lz78_parse(xor_seq(
                    final(self).compressed_blobs@.last()@,
                    old(self).random_salt,
                )).len() > 0 ==> lz78::fresh_pairs(lz78::lz78_parse(xor_seq(
                    final(self).compressed_blobs@.last()@,
                    old(self).random_salt,
                )).drop_last()))
            },
            !r ==> *final(self) == *old(self),
            old(self).total_size() + 32 + name@.len() + 9 * (data@.len() + 1) <= u64::MAX ==> r,
    {
        let blob_plain = compress_payload(data, compressing_mode);
        let nl = name.len() as u64;
        let bl = blob_plain.len() as u64;
        let t = self.total_size_exec();
        if nl > u64::MAX - 32 {
            return false;
        }
        let meta = 32 + nl;
        if bl > u64::MAX - meta {
            return false;
        }
        let need = meta + bl;
        if need > u64::MAX - t {
            return false;
        }
        let blob = xor_bytes(&blob_plain, self.random_salt);
        proof {
            lemma_xor_seq_involution(blob_plain@, self.random_salt);
        }
        let entry = LZRSEntry {
            compressed_size: bl,
            original_size: data.len() as u64,
            data_offset: 0,
            file_name: name,
        };
        self.entries.push(entry);
        self.compressed_blobs.push(blob);
        self.originals = Ghost(self.originals@.push(data@));
        proof {
            let es = self.entries@;
            let os = old(self).entries@;
            assert(es.drop_last() =~= os);
            assert(es.last() == entry);
            assert(self.compressed_blobs@
                =~= old(self).compressed_blobs@.push(self.compressed_blobs@.last()));
            assert(xor_seq(self.compressed_blobs@.last()@, self.random_salt) == blob_plain@);
            lemma_prefix_sum_congruent(es, os, os.len() as int);
            assert(entries_meta_size(es) == entries_meta_size(os) + 32 + name@.len());
            assert(compressed_prefix_sum(es, es.len() as int)
                == compressed_prefix_sum(es, os.len() as int) + bl);
        }
        true
    }

    fn push_entry_meta(out: &mut Vec<u8>, e: &LZRSEntry, salt: u8)
        ensures
            final(out)@ == old(out)@ + entry_meta_bytes(*e, salt),
    {
        crate::wire::push_u64_le_xored(out, e.compressed_size, salt);
        crate::wire::push_u64_le_xored(out, e.original_size, salt);
        crate::wire::push_u64_le_xored(out, e.data_offset, salt);
        crate::wire::push_u64_le_xored(out, e.file_name.len() as u64, salt);
        extend_bytes_xored(out, &e.file_name, salt);
        assert(out@ =~= old(out)@ + entry_meta_bytes(*e, salt));
    }

    /// Serializes the header: signature and salt in plaintext, then the
    /// obfuscated algorithm id, entry count, and metadata table.
    #[verifier::loop_isolation(false)]
    #[verifier::rlimit(80)]
    fn serialize_header(&self) -> (r: Vec<u8>)
        ensures
            r@ == header_bytes(self.random_salt, self.compression_method, self.entries@),
    {
        let mut out: Vec<u8> = Vec::new();
        out.push(0x4C);
        out.push(0x5A);
        out.push(0x52);
        out.push(0x53);
        out.push(self.random_salt);
        crate::wire::push_u32_le_xored(&mut out, self.compression_method, self.random_salt);
        crate::wire::push_u64_le_xored(&mut out, self.entries.len() as u64, self.random_salt);
        proof {
            assert(out@ =~= signature_bytes() + seq![self.random_salt]
                + xor_seq(u32_le(self.compression_method), self.random_salt)
                + xor_seq(u64_le(self.entries@.len() as u64), self.random_salt));
        }
        let ghost prefix0 = out@;
        let mut i: usize = 0;
        while i < self.entries.len()
            invariant
                i <= self.entries@.len(),
                out@ == prefix0 + entries_meta_bytes(self.entries@.take(i as int), self.random_salt),
            decreases self.entries@.len() - i,
        {
            let e = &self.entries[i];
            Self::push_entry_meta(&mut out, e, self.random_salt);
            proof {
                assert(self.entries@.take(i + 1).drop_last() =~= self.entries@.take(i as int));
                assert(self.entries@.take(i + 1).last() == self.entries@[i as int]);
                assert(out@ =~= prefix0
                    + entries_meta_bytes(self.entries@.take(i + 1), self.random_salt));
            }
            i += 1;
        }
        proof {
            assert(self.entries@.take(self.entries@.len() as int) =~= self.entries@);
            assert(out@ =~= header_bytes(self.random_salt, self.compression_method, self.entries@));
        }
        out
    }

    /// Finalizes every entry's offset and serializes the container:
    /// signature and salt in plaintext, then the obfuscated algorithm id,
    /// entry count and metadata table, then the stored blobs in entry
    /// order.
    #[verifier::loop_isolation(false)]
    #[verifier::rlimit(100)]
    #[verifier::spinoff_prover]
    pub fn write_bytes(&mut self) -> (r: Vec<u8>)
        requires
            old(self).wf(),
        ensures
            final(self).wf(),
            r@ == container_bytes(
                final(self).random_salt,
                final(self).compression_method,
                final(self).entries@,
                final(self).blobs_view(),
            ),
            final(self).random_salt == old(self).random_salt,
            final(self).compression_method == old(self).compression_method,
            final(self).compressed_blobs == old(self).compressed_blobs,
            final(self).originals == old(self).originals,
            final(self).entries@.len() == old(self).entries@.len(),
            forall|i: int| 0 <= i < final(self).entries@.len()
                ==> (#[trigger] final(self).entries@[i]).data_offset
                    == header_size_spec(final(self).entries@)
                        + compressed_prefix_sum(final(self).entries@, i),
            forall|i: int| 0 <= i < final(self).entries@.len() ==> {
                &&& (#[trigger] final(self).entries@[i]).original_size
                    == old(self).entries@[i].original_size
                &&& final(self).entries@[i].file_name@ == old(self).entries@[i].file_name@
            },
    {
        self.finalize_offsets();
        let mut out: Vec<u8> = self.serialize_header();
        append_blobs(&mut out, &self.compressed_blobs);
        proof {
            assert(self.compressed_blobs@.map(|i: int, bl: Vec<u8>| bl@) =~= self.blobs_view());
        }
        out
    }
}

#[verifier::loop_isolation(false)]
fn append_blobs(out: &mut Vec<u8>, blobs: &Vec<Vec<u8>>)
    ensures
        final(out)@ == old(out)@ + blobs_bytes(blobs@.map(|i: int, bl: Vec<u8>| bl@)),
{
    let ghost view = blobs@.map(|i: int, bl: Vec<u8>| bl@);
    let mut b: usize = 0;
    while b < blobs.len()
        invariant
            b <= blobs@.len(),
            out@ == old(out)@ + blobs_bytes(view.take(b as int)),
        decreases blobs@.len() - b,
    {
        extend_bytes(out, &blobs[b]);
        proof {
            assert(view.take(b + 1).drop_last() =~= view.take(b as int));
            assert(view.take(b + 1).last() == view[b as int]);
            assert(out@ =~= old(out)@ + blobs_bytes(view.take(b + 1)));
        }
        b += 1;
    }
    proof {
        assert(view.take(view.len() as int) =~= view);
    }
}

proof fn lemma_prefix_sum_congruent(a: Seq<LZRSEntry>, b: Seq<LZRSEntry>, i: int)
    requires
        i <= a.len(),
        i <= b.len(),
        forall|j: int| 0 <= j < i
            ==> (#[trigger] a[j]).compressed_size == b[j].compressed_size,
    ensures
        compressed_prefix_sum(a, i) == compressed_prefix_sum(b, i),
    decreases i,
{
    if i > 0 {
        lemma_prefix_sum_congruent(a, b, i - 1);
    }
}

} // verus!
