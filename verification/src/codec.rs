use vstd::prelude::*;
use crate::bits::{
    BitReader, BitWriter, bytes_bits, lemma_write_read_trailing, padding_len, visible_bits, zero_bits,
};
use crate::codebook::{
    build_codebook, code_for, code_of, codebook_entry, lemma_entry_empty_iff_absent, lemma_code_exists, lemma_code_len, lemma_code_walk, walk,
};
use crate::frequency::{
    count_frequencies, frequency_table, lemma_frequency_total, lemma_occurrences_bounded,
    lemma_occurrences_positive, lemma_prefix_total_monotone, occurrences, prefix_total, table_total,
};
use crate::tree::{HuffmanNode, build_tree, huffman_tree, lemma_huffman_tree};

verus! {

/// Magic number that identifies a valid .huff file ("HUFF").
const MAGIC: [u8; 4] = [72, 85, 70, 70];

/// 4 (magic) + 8 (original size) + 8 (bit count) + 2048 (frequency table)
pub const HEADER_SIZE: usize = 4 + 8 + 8 + 2048;

/// The magic number as a byte sequence.
pub open spec fn magic() -> Seq<u8> {
    seq![72u8, 85u8, 70u8, 70u8]
}

// Little-endian integers

/// The eight bytes of `v`, least significant first.
pub open spec fn le_bytes(v: u64) -> Seq<u8> {
    seq![
        v as u8,
        (v >> 8u64) as u8,
        (v >> 16u64) as u8,
        (v >> 24u64) as u8,
        (v >> 32u64) as u8,
        (v >> 40u64) as u8,
        (v >> 48u64) as u8,
        (v >> 56u64) as u8,
    ]
}

/// The value of the first eight bytes of `s`, least significant first.
pub open spec fn le_value(s: Seq<u8>) -> u64 {
    (s[0] as u64) | ((s[1] as u64) << 8u64) | ((s[2] as u64) << 16u64) | ((s[3] as u64) << 24u64)
        | ((s[4] as u64) << 32u64) | ((s[5] as u64) << 40u64) | ((s[6] as u64) << 48u64) | ((
    s[7] as u64) << 56u64)
}

proof fn lemma_le_bits(v: u64, b0: u8, b1: u8, b2: u8, b3: u8, b4: u8, b5: u8, b6: u8, b7: u8)
    by (bit_vector)
    requires
        b0 == v as u8,
        b1 == (v >> 8u64) as u8,
        b2 == (v >> 16u64) as u8,
        b3 == (v >> 24u64) as u8,
        b4 == (v >> 32u64) as u8,
        b5 == (v >> 40u64) as u8,
        b6 == (v >> 48u64) as u8,
        b7 == (v >> 56u64) as u8,
    ensures
        (b0 as u64) | ((b1 as u64) << 8u64) | ((b2 as u64) << 16u64) | ((b3 as u64) << 24u64) | ((
        b4 as u64) << 32u64) | ((b5 as u64) << 40u64) | ((b6 as u64) << 48u64) | ((b7 as u64)
            << 56u64) == v,
{
}

/// Reading back the eight bytes of `v` gives `v`.
pub proof fn lemma_le_roundtrip(v: u64)
    ensures
        le_value(le_bytes(v)) == v,
{
    let s = le_bytes(v);
    lemma_le_bits(v, s[0], s[1], s[2], s[3], s[4], s[5], s[6], s[7]);
}

/// The first `n` entries of a frequency table, eight little-endian bytes each.
pub open spec fn table_bytes(f: Seq<u64>, n: nat) -> Seq<u8>
    decreases n,
{
    if n == 0 {
        Seq::empty()
    } else {
        table_bytes(f, (n - 1) as nat) + le_bytes(f[n - 1])
    }
}

proof fn lemma_table_bytes(f: Seq<u64>, n: nat)
    requires
        n <= f.len(),
    ensures
        table_bytes(f, n).len() == 8 * n,
        forall|i: int|
            0 <= i < n ==> #[trigger] table_bytes(f, n).subrange(8 * i, 8 * i + 8) == le_bytes(
                f[i],
            ),
    decreases n,
{
    if n > 0 {
        let prev = table_bytes(f, (n - 1) as nat);
        lemma_table_bytes(f, (n - 1) as nat);
        assert forall|i: int| 0 <= i < n implies #[trigger] table_bytes(f, n).subrange(
            8 * i,
            8 * i + 8,
        ) == le_bytes(f[i]) by {
            if i < n - 1 {
                assert(table_bytes(f, n).subrange(8 * i, 8 * i + 8) =~= prev.subrange(
                    8 * i,
                    8 * i + 8,
                ));
            } else {
                assert(table_bytes(f, n).subrange(8 * i, 8 * i + 8) =~= le_bytes(f[i]));
            }
        }
    }
}

// The .huff format

/// The 2068-byte header: magic, original size, bit count, frequency table.
pub open spec fn header_bytes(orig_size: u64, total_bits: u64, f: Seq<u64>) -> Seq<u8> {
    magic() + le_bytes(orig_size) + le_bytes(total_bits) + table_bytes(f, 256)
}

/// The frequency table stored in a header.
pub open spec fn header_table(d: Seq<u8>) -> Seq<u64> {
    Seq::new(256, |i: int| le_value(d.subrange(20 + 8 * i, 28 + 8 * i)))
}

/// The bits of `s`, each byte replaced by its code in `tree`.
pub open spec fn encode_with(tree: HuffmanNode, s: Seq<u8>) -> Seq<bool>
    decreases s.len(),
{
    if s.len() == 0 {
        Seq::empty()
    } else {
        encode_with(tree, s.drop_last()) + code_for(tree, s.last())
    }
}

/// The Huffman encoding of `data` with the tree built from its own frequencies.
pub open spec fn encoding_of(data: Seq<u8>) -> Seq<bool> {
    encode_with(huffman_tree(frequency_table(data)).unwrap(), data)
}

/// `out` is the .huff file for `data`: the header, then the encoded bits
/// packed most significant bit first and zero-padded to a whole byte.
pub open spec fn is_compression_of(out: Seq<u8>, data: Seq<u8>) -> bool {
    let bits = encoding_of(data);
    &&& out.len() == HEADER_SIZE + (bits.len() + 7) / 8
    &&& out.take(HEADER_SIZE as int) == header_bytes(
        data.len() as u64,
        bits.len() as u64,
        frequency_table(data),
    )
    &&& bytes_bits(out.skip(HEADER_SIZE as int)) == bits + zero_bits(padding_len(bits.len()))
}

/// Decode `n` bytes from the front of `bits`: the bytes and the bits used,
/// or `None` when the bits run out first.
pub open spec fn decode_n(tree: HuffmanNode, bits: Seq<bool>, n: nat) -> Option<(Seq<u8>, nat)>
    decreases n,
{
    if n == 0 {
        Some((Seq::empty(), 0))
    } else {
        match decode_n(tree, bits, (n - 1) as nat) {
            None => None,
            Some((out, pos)) => match walk(tree, bits.skip(pos as int)) {
                None => None,
                Some((b, k)) => Some((out.push(b), pos + k)),
            },
        }
    }
}

/// The frequency table of a .huff file adds up to a 64-bit number (the
/// decompressor's tree construction overflows otherwise).
pub open spec fn header_counts_fit(d: Seq<u8>) -> bool {
    d.len() >= HEADER_SIZE && d.take(4) == magic() ==> table_total(header_table(d)) <= u64::MAX
}

/// What decompressing `d` gives: the original bytes, or the error message.
pub open spec fn decompressed(d: Seq<u8>) -> Result<Seq<u8>, Seq<char>> {
    if d.len() < HEADER_SIZE {
        Err("Input too small to be a valid .huff file"@)
    } else if d.take(4) != magic() {
        Err("Invalid magic number — not a .huff file"@)
    } else {
        let orig_size = le_value(d.subrange(4, 12)) as usize;
        let total_bits = le_value(d.subrange(12, 20));
        match huffman_tree(header_table(d)) {
            None => Err("Failed to rebuild Huffman tree"@),
            Some(tree) => match decode_n(
                tree,
                visible_bits(d.skip(HEADER_SIZE as int), total_bits),
                orig_size as nat,
            ) {
                Some((out, _)) => Ok(out),
                None => Err("Unexpected end of bitstream during decoding"@),
            },
        }
    }
}

// Helpers

/// Append `v` as eight little-endian bytes.
fn push_u64_le(out: &mut Vec<u8>, v: u64)
    ensures
        final(out)@ == old(out)@ + le_bytes(v),
{
    out.push(v as u8);
    out.push((v >> 8u64) as u8);
    out.push((v >> 16u64) as u8);
    out.push((v >> 24u64) as u8);
    out.push((v >> 32u64) as u8);
    out.push((v >> 40u64) as u8);
    out.push((v >> 48u64) as u8);
    out.push((v >> 56u64) as u8);
    assert(out@ =~= old(out)@ + le_bytes(v));
}

/// The little-endian u64 at `offset`.
fn read_u64_le(data: &[u8], offset: usize) -> (v: u64)
    requires
        offset + 8 <= data@.len(),
    ensures
        v == le_value(data@.subrange(offset as int, offset + 8)),
{
    (data[offset] as u64) | ((data[offset + 1] as u64) << 8u64) | ((data[offset + 2] as u64)
        << 16u64) | ((data[offset + 3] as u64) << 24u64) | ((data[offset + 4] as u64) << 32u64)
        | ((data[offset + 5] as u64) << 40u64) | ((data[offset + 6] as u64) << 48u64) | ((
    data[offset + 7] as u64) << 56u64)
}

/// `format!` of the message for a byte without a code. Trusted, with no
/// contract: nothing is claimed of the message.
#[verifier::external_body]
fn no_code_message(byte: u8) -> String {
    format!("No code found for byte {}", byte)
}

// Compress

pub fn compress(data: &[u8]) -> (res: Result<Vec<u8>, String>)
    requires
        encoding_of(data@).len() <= u64::MAX,
    ensures
        res is Err <==> data@.len() == 0,
        res matches Err(e) ==> e@ == "Cannot compress empty input"@,
        res matches Ok(out) ==> is_compression_of(out@, data@),
{
    if data.len() == 0 {
        return Err("Cannot compress empty input".to_owned());
    }

    // 1. Count frequencies and build the tree + codebook
    let freq = count_frequencies(data);
    let ghost f = frequency_table(data@);
    proof {
        lemma_huffman_tree(f);
        assert(occurrences(data@, data@[0]) > 0) by {
            lemma_occurs(data@, 0);
        }
        assert(f[data@[0] as int] > 0);
    }
    let tree = match build_tree(&freq) {
        Some(t) => t,
        None => return Err("Failed to build Huffman tree".to_owned()),
    };
    let ghost t = *tree;
    let codebook = build_codebook(&tree);

    // 2. Encode the payload into bits
    let mut writer = BitWriter::new();
    let n = data.len();
    for i in 0..n
        invariant
            n == data@.len(),
            t == huffman_tree(f).unwrap(),
            t is Internal,
            f == frequency_table(data@),
            forall|b: u8| f[b as int] > 0 ==> #[trigger] t.labels().contains(b),
            forall|b: u8| (#[trigger] codebook@[b as int])@ == codebook_entry(t, b),
            forall|b: u8| #[trigger] t.positive_labels().contains(b) <==> f[b as int] > 0,
            writer.written() == encode_with(t, data@.take(i as int)),
    {
        let byte = data[i];
        let code = &codebook[byte as usize];
        proof {
            lemma_occurs(data@, i as int);
            lemma_code_exists(t, byte);
        }
        if code.len() == 0 {
            return Err(no_code_message(byte));
        }
        writer.write_bits(code.as_slice());
        assert(data@.take(i + 1).drop_last() =~= data@.take(i as int));
    }
    assert(data@.take(n as int) =~= data@);
    let ghost bits = writer.written();
    let mut payload = writer.finish();

    // 3. Assemble the .huff binary format
    // Total bits in the payload (needed to strip padding on decode)
    let mut total_bits: u64 = 0;
    for i in 0..n
        invariant
            n == data@.len(),
            bits == encode_with(t, data@),
            bits.len() <= u64::MAX,
            f == frequency_table(data@),
            forall|b: u8| (#[trigger] codebook@[b as int])@ == codebook_entry(t, b),
            forall|b: u8| #[trigger] t.positive_labels().contains(b) <==> f[b as int] > 0,
            total_bits == encode_with(t, data@.take(i as int)).len(),
    {
        proof {
            assert(data@.take(i + 1).drop_last() =~= data@.take(i as int));
            lemma_encode_prefix_len(t, data@, i + 1);
            lemma_occurs(data@, i as int);
        }
        total_bits = total_bits + codebook[data[i] as usize].len() as u64;
    }
    let mut out: Vec<u8> = Vec::new();

    // Header: MAGIC (4 bytes)
    out.push(MAGIC[0]);
    out.push(MAGIC[1]);
    out.push(MAGIC[2]);
    out.push(MAGIC[3]);
    // Header: original file size (8 bytes, little-endian u64)
    push_u64_le(&mut out, data.len() as u64);
    // Header: total encoded bit count (8 bytes, little-endian u64)
    push_u64_le(&mut out, total_bits);
    let ghost fixed = out@;
    // Header: frequency table (256 × 8 bytes = 2048 bytes)
    for i in 0..256usize
        invariant
            out@ == fixed + table_bytes(freq@, i as nat),
    {
        push_u64_le(&mut out, freq[i]);
    }
    proof {
        assert(fixed =~= magic() + le_bytes(data@.len() as u64) + le_bytes(bits.len() as u64));
        lemma_table_bytes(freq@, 256);
        assert(out@.take(HEADER_SIZE as int) =~= header_bytes(
            data@.len() as u64,
            bits.len() as u64,
            f,
        ));
    }
    let ghost header = out@;
    let ghost packed = payload@;
    // Payload: the compressed bitstream
    out.append(&mut payload);
    proof {
        assert(out@.take(HEADER_SIZE as int) =~= header);
        assert(out@.skip(HEADER_SIZE as int) =~= packed);
    }
    Ok(out)
}

/// Whether `data` is short enough for its encoding's bit count to fit in
/// 64 bits whatever its codes (each is at most 255 bits long); when true,
/// `compress` may be called on `data`.
pub fn check_encoding_fits(data: &[u8]) -> (ok: bool)
    ensures
        ok == (data@.len() * 255 <= u64::MAX),
        ok ==> encoding_of(data@).len() <= u64::MAX,
{
    let n = data.len() as u64;
    let ok = n <= u64::MAX / 255;
    proof {
        let m = n as int;
        assert(m <= u64::MAX / 255 <==> m * 255 <= u64::MAX) by (nonlinear_arith)
            requires
                m >= 0,
        ;
        if ok {
            lemma_encoding_len(data@);
        }
    }
    ok
}

// Decompress

/// Whether `decompress` may be called on `data`: false exactly when the
/// header's frequency table adds up to more than a 64-bit number.
pub fn check_header_counts(data: &[u8]) -> (ok: bool)
    ensures
        ok == header_counts_fit(data@),
{
    if data.len() < HEADER_SIZE {
        return true;
    }
    if data[0] != MAGIC[0] || data[1] != MAGIC[1] || data[2] != MAGIC[2] || data[3] != MAGIC[3] {
        assert(data@.take(4) != magic());
        return true;
    }
    assert(data@.take(4) =~= magic());
    let ghost f = header_table(data@);
    let mut total: u64 = 0;
    for i in 0..256usize
        invariant
            data@.len() >= HEADER_SIZE,
            data@.take(4) == magic(),
            f == header_table(data@),
            total == prefix_total(f, i as nat),
    {
        let v = read_u64_le(data, 20 + i * 8);
        match total.checked_add(v) {
            Some(t) => {
                total = t;
            },
            None => {
                proof {
                    lemma_prefix_total_monotone(f, (i + 1) as nat, 256);
                }
                return false;
            },
        }
    }
    true
}

pub fn decompress(data: &[u8]) -> (res: Result<Vec<u8>, String>)
    requires
        header_counts_fit(data@),
    ensures
        match res {
            Ok(out) => decompressed(data@) == Ok::<Seq<u8>, Seq<char>>(out@),
            Err(e) => decompressed(data@) == Err::<Seq<u8>, Seq<char>>(e@),
        },
        res matches Ok(out) ==> out@.len() == le_value(data@.subrange(4, 12)) as usize,
{
    if data.len() < HEADER_SIZE {
        return Err("Input too small to be a valid .huff file".to_owned());
    }

    // 1. Validate magic number
    if data[0] != MAGIC[0] || data[1] != MAGIC[1] || data[2] != MAGIC[2] || data[3] != MAGIC[3] {
        proof {
            assert(data@.take(4) != magic());
        }
        return Err("Invalid magic number — not a .huff file".to_owned());
    }
    assert(data@.take(4) =~= magic());

    // 2. Read original size
    let orig_size = #[verifier::truncate] (read_u64_le(data, 4) as usize);

    // 3. Read total encoded bit count
    let total_bits = read_u64_le(data, 12);

    // 4. Read frequency table (256 × u64)
    let mut freq = [0u64; 256];
    for i in 0..256usize
        invariant
            data@.len() >= HEADER_SIZE,
            freq@.len() == 256,
            forall|k: int| 0 <= k < i ==> freq@[k] == header_table(data@)[k],
    {
        let offset = 20 + i * 8;
        freq[i] = read_u64_le(data, offset);
    }
    assert(freq@ =~= header_table(data@));

    // 5. Rebuild the Huffman tree from the frequency table
    let tree = match build_tree(&freq) {
        Some(t) => t,
        None => return Err("Failed to rebuild Huffman tree".to_owned()),
    };
    let ghost t = *tree;
    let root: &HuffmanNode = &tree;

    // 6. Decode the bitstream
    let payload = slice_from(data, HEADER_SIZE);
    let mut reader = BitReader::new(payload, total_bits);
    let ghost stream = reader.stream();
    let mut output: Vec<u8> = Vec::new();
    assert(stream == visible_bits(data@.skip(HEADER_SIZE as int), le_value(data@.subrange(12, 20))));
    assert(huffman_tree(header_table(data@)) == Some(t));

    while output.len() < orig_size
        invariant
            reader.stream() == stream,
            reader.position() <= stream.len(),
            output@.len() <= orig_size,
            *root == t,
            data@.len() >= HEADER_SIZE,
            data@.take(4) == magic(),
            orig_size == le_value(data@.subrange(4, 12)) as usize,
            stream == visible_bits(data@.skip(HEADER_SIZE as int), le_value(data@.subrange(12, 20))),
            huffman_tree(header_table(data@)) == Some(t),
            decode_n(t, stream, output@.len() as nat) == Some((output@, reader.position())),
        decreases orig_size - output@.len(),
    {
        let ghost before = reader.position();
        let ghost done = output@;
        match decode_one(root, &mut reader) {
            Some(byte) => {
                output.push(byte);
                proof {
                    assert(output@.len() as nat - 1 == done.len());
                    assert(walk(t, stream.skip(before as int)) == Some((byte, (reader.position() - before) as nat)));
                    assert(decode_n(t, stream, output@.len() as nat) == Some((output@, reader.position())));
                }
            },
            None => {
                proof {
                    lemma_decode_none(t, stream, (output@.len() + 1) as nat, orig_size as nat);
                }
                return Err("Unexpected end of bitstream during decoding".to_owned());
            },
        }
    }
    Ok(output)
}

/// The bytes of `data` from `start` on.
fn slice_from(data: &[u8], start: usize) -> (s: &[u8])
    requires
        start <= data@.len(),
    ensures
        s@ == data@.skip(start as int),
{
    vstd::slice::slice_subrange(data, start, data.len())
}

/// Walk the Huffman tree one bit at a time until we reach a leaf.
fn decode_one(root: &HuffmanNode, reader: &mut BitReader) -> (byte: Option<u8>)
    requires
        old(reader).position() <= old(reader).stream().len(),
    ensures
        final(reader).stream() == old(reader).stream(),
        final(reader).position() <= final(reader).stream().len(),
        match walk(*root, old(reader).stream().skip(old(reader).position() as int)) {
            Some((b, k)) => byte == Some(b) && final(reader).position() == old(reader).position()
                + k,
            None => byte is None && final(reader).position() == old(reader).stream().len(),
        },
    decreases root,
{
    match root {
        HuffmanNode::Leaf { byte, .. } => Some(*byte),
        HuffmanNode::Internal { left, right, .. } => {
            let ghost s = reader.stream();
            let ghost p = reader.position();
            let bit = match reader.read_bit() {
                Some(b) => b,
                None => return None,
            };
            assert(s.skip(p as int).drop_first() =~= s.skip(p + 1 as int));
            if bit {
                decode_one(right, reader)
            } else {
                decode_one(left, reader)
            }
        },
    }
}

// Lemmas

proof fn lemma_occurs(s: Seq<u8>, i: int)
    requires
        0 <= i < s.len(),
        s.len() <= u64::MAX,
    ensures
        occurrences(s, s[i]) > 0,
        frequency_table(s)[s[i] as int] > 0,
    decreases s.len(),
{
    lemma_occurrences_bounded(s, s[i]);
    assert((s[i] as int) as u8 == s[i]);
    if i < s.len() - 1 {
        lemma_occurs(s.drop_last(), i);
    }
}

proof fn lemma_encode_concat(tree: HuffmanNode, a: Seq<u8>, b: Seq<u8>)
    ensures
        encode_with(tree, a + b) == encode_with(tree, a) + encode_with(tree, b),
    decreases b.len(),
{
    if b.len() == 0 {
        assert(a + b =~= a);
        assert(encode_with(tree, a) + Seq::<bool>::empty() =~= encode_with(tree, a));
    } else {
        assert((a + b).drop_last() =~= a + b.drop_last());
        lemma_encode_concat(tree, a, b.drop_last());
        assert(encode_with(tree, a + b) =~= encode_with(tree, a) + encode_with(tree, b));
    }
}

proof fn lemma_encode_prefix_len(tree: HuffmanNode, s: Seq<u8>, i: int)
    requires
        0 <= i <= s.len(),
    ensures
        encode_with(tree, s.take(i)).len() <= encode_with(tree, s).len(),
{
    assert(s =~= s.take(i) + s.skip(i));
    lemma_encode_concat(tree, s.take(i), s.skip(i));
}

proof fn lemma_decode_none(tree: HuffmanNode, bits: Seq<bool>, n: nat, m: nat)
    requires
        n <= m,
        decode_n(tree, bits, n) is None,
    ensures
        decode_n(tree, bits, m) is None,
    decreases m - n,
{
    if n < m {
        lemma_decode_none(tree, bits, n + 1, m);
    }
}

/// Decoding the encoding of `d` gives back `d`, one byte per code.
proof fn lemma_decode_prefix(tree: HuffmanNode, d: Seq<u8>, n: nat)
    requires
        n <= d.len(),
        forall|i: int| 0 <= i < d.len() ==> #[trigger] code_of(tree, d[i]) is Some,
    ensures
        decode_n(tree, encode_with(tree, d), n) == Some(
            (d.take(n as int), encode_with(tree, d.take(n as int)).len()),
        ),
    decreases n,
{
    let bits = encode_with(tree, d);
    if n == 0 {
        assert(d.take(0) =~= Seq::<u8>::empty());
    } else {
        let m = (n - 1) as nat;
        lemma_decode_prefix(tree, d, m);
        let head = d.take(m as int);
        let code = code_for(tree, d[m as int]);
        let rest = encode_with(tree, d.skip(n as int));
        assert(d =~= d.take(n as int) + d.skip(n as int));
        lemma_encode_concat(tree, d.take(n as int), d.skip(n as int));
        assert(d.take(n as int).drop_last() =~= head);
        assert(encode_with(tree, d.take(n as int)) == encode_with(tree, head) + code);
        assert(bits.skip(encode_with(tree, head).len() as int) =~= code + rest);
        lemma_code_walk(tree, d[m as int], rest);
        assert(head.push(d[m as int]) =~= d.take(n as int));
    }
}

proof fn lemma_encode_len(tree: HuffmanNode, s: Seq<u8>)
    requires
        tree.height() <= 255,
    ensures
        encode_with(tree, s).len() <= 255 * s.len(),
    decreases s.len(),
{
    if s.len() > 0 {
        lemma_encode_len(tree, s.drop_last());
        lemma_code_len(tree, s.last());
    }
}

/// Every code is at most 255 bits long, so the encoding of `data` has at most
/// 255 bits per input byte.
pub proof fn lemma_encoding_len(data: Seq<u8>)
    requires
        data.len() <= u64::MAX,
    ensures
        encoding_of(data).len() <= 255 * data.len(),
{
    if data.len() > 0 {
        lemma_frequency_total(data);
        lemma_occurs(data, 0);
        lemma_huffman_tree(frequency_table(data));
        lemma_encode_len(huffman_tree(frequency_table(data)).unwrap(), data);
    } else {
        assert(encoding_of(data).len() == 0);
    }
}

/// In the codebook `compress` uses for `data`, a byte's entry is empty
/// exactly when the byte does not occur in `data`.
pub proof fn lemma_codebook_entry_empty_iff_absent(data: Seq<u8>, b: u8)
    requires
        data.len() > 0,
        data.len() <= u64::MAX,
    ensures
        huffman_tree(frequency_table(data)) is Some,
        codebook_entry(huffman_tree(frequency_table(data)).unwrap(), b).len() == 0
            <==> !data.contains(b),
{
    let f = frequency_table(data);
    lemma_frequency_total(data);
    lemma_occurs(data, 0);
    lemma_huffman_tree(f);
    lemma_entry_empty_iff_absent(f, b);
    lemma_occurrences_bounded(data, b);
    lemma_occurrences_positive(data, b);
    assert(f[b as int] == occurrences(data, b) as u64);
}

proof fn lemma_decode_n_len(tree: HuffmanNode, bits: Seq<bool>, n: nat)
    ensures
        decode_n(tree, bits, n) matches Some((out, _)) ==> out.len() == n,
    decreases n,
{
    if n > 0 {
        lemma_decode_n_len(tree, bits, (n - 1) as nat);
    }
}

/// A successful decompression returns exactly as many bytes as the header's
/// size field says; a file whose bits run out before that is an error.
pub proof fn lemma_decompressed_len(d: Seq<u8>)
    ensures
        decompressed(d) matches Ok(out) ==> out.len() == le_value(d.subrange(4, 12)) as usize,
        d.len() >= HEADER_SIZE && d.take(4) == magic() && huffman_tree(header_table(d)) is Some
            && (decompressed(d) is Err) ==> decompressed(d) == Err::<Seq<u8>, Seq<char>>(
            "Unexpected end of bitstream during decoding"@,
        ),
{
    if d.len() >= HEADER_SIZE && d.take(4) == magic() {
        if let Some(tree) = huffman_tree(header_table(d)) {
            let n = le_value(d.subrange(4, 12)) as usize;
            lemma_decode_n_len(
                tree,
                visible_bits(d.skip(HEADER_SIZE as int), le_value(d.subrange(12, 20))),
                n as nat,
            );
        }
    }
}

/// Decompressing what `compress` produced gives back the original bytes:
/// for every non-empty input whose encoding fits the 64-bit bit count, the
/// .huff file passes the decompressor's checks and decodes to the input.
pub proof fn lemma_roundtrip(data: Seq<u8>, out: Seq<u8>)
    requires
        data.len() > 0,
        data.len() <= usize::MAX,
        encoding_of(data).len() <= u64::MAX,
        is_compression_of(out, data),
    ensures
        header_counts_fit(out),
        decompressed(out) == Ok::<Seq<u8>, Seq<char>>(data),
{
    lemma_roundtrip_ignores_trailing_bytes(data, out, Seq::empty());
    assert(out + Seq::<u8>::empty() =~= out);
}

/// Bytes appended to a .huff file are ignored: the file still decodes to
/// the input it was made from.
pub proof fn lemma_roundtrip_ignores_trailing_bytes(data: Seq<u8>, out: Seq<u8>, extra: Seq<u8>)
    requires
        data.len() > 0,
        data.len() <= usize::MAX,
        encoding_of(data).len() <= u64::MAX,
        is_compression_of(out, data),
    ensures
        header_counts_fit(out + extra),
        decompressed(out + extra) == Ok::<Seq<u8>, Seq<char>>(data),
{
    let file = out + extra;
    let f = frequency_table(data);
    let bits = encoding_of(data);
    let h = header_bytes(data.len() as u64, bits.len() as u64, f);
    lemma_frequency_total(data);
    lemma_huffman_tree(f);
    lemma_occurs(data, 0);
    let t = huffman_tree(f).unwrap();
    lemma_table_bytes(f, 256);
    assert(h.len() == HEADER_SIZE);
    assert(file.take(HEADER_SIZE as int) =~= h);
    assert(file.take(4) =~= h.take(4));
    assert(h.take(4) =~= magic());
    assert(file.subrange(4, 12) =~= h.subrange(4, 12));
    assert(h.subrange(4, 12) =~= le_bytes(data.len() as u64));
    assert(file.subrange(12, 20) =~= h.subrange(12, 20));
    assert(h.subrange(12, 20) =~= le_bytes(bits.len() as u64));
    lemma_le_roundtrip(data.len() as u64);
    lemma_le_roundtrip(bits.len() as u64);
    assert forall|i: int| 0 <= i < 256 implies #[trigger] header_table(file)[i] == f[i] by {
        assert(file.subrange(20 + 8 * i, 28 + 8 * i) =~= h.subrange(20 + 8 * i, 28 + 8 * i));
        assert(h.subrange(20 + 8 * i, 28 + 8 * i) =~= table_bytes(f, 256).subrange(
            8 * i,
            8 * i + 8,
        ));
        lemma_le_roundtrip(f[i]);
    }
    assert(header_table(file) =~= f);
    // the visible bits are exactly the encoding
    assert(file.skip(HEADER_SIZE as int) =~= out.skip(HEADER_SIZE as int) + extra);
    lemma_write_read_trailing(bits, out.skip(HEADER_SIZE as int), extra);
    // every byte of the input has a code
    assert forall|i: int| 0 <= i < data.len() implies #[trigger] code_of(t, data[i]) is Some by {
        lemma_occurs(data, i);
        lemma_code_exists(t, data[i]);
    }
    lemma_decode_prefix(t, data, data.len());
    assert(data.take(data.len() as int) =~= data);
}

} // verus!
