//! The feature-cache file codec and the header checks of FRQ pitch files.
use vstd::prelude::*;
use crate::utils::llsm::le_u32_at;
use crate::utils::llsm::le_i32_at;

verus! {

/// Number of mel bands stored per frame in a feature cache.
pub const MEL_BANDS: usize = 128;

/// Number of bytes that hold one voicing bit per frame.
pub open spec fn uv_byte_count(cols: int) -> int {
    (cols + 7) / 8
}

/// Exact size of a cache file holding `cols` frames: an eight-byte header,
/// two bytes per mel code and the packed voicing bits.
pub open spec fn cache_len(cols: int) -> int {
    8 + 2 * (MEL_BANDS as int) * cols + uv_byte_count(cols)
}

/// Little-endian value of the two bytes of `b` starting at `p`.
pub open spec fn le_u16_at(b: Seq<u8>, p: int) -> int {
    b[p] as int + 256 * (b[p + 1] as int)
}

/// Bit `k` (0 is the lowest) of byte `b`.
pub open spec fn bit_of(b: u8, k: u32) -> bool {
    (b >> k) & 1u8 == 1u8
}

/// Contents of a feature cache: the quantised mel codes (band-major, frame
/// by frame within a band), the bit pattern of the amplitude scale, and one
/// unvoiced flag per frame.
pub struct FeatureCache {
    pub cols: usize,
    pub scale_bits: u32,
    pub mel_codes: Vec<u16>,
    pub unvoiced: Vec<bool>,
}

/// Decoding of a cache file's bytes: the frame count and scale from the
/// header, `MEL_BANDS * cols` two-byte codes, and flag `i` from bit `i % 8`
/// of byte `i / 8` of the trailing bit field. Fails unless the size is
/// exactly [`cache_len`] of the stored frame count.
pub open spec fn decoded(b: Seq<u8>) -> Option<(int, u32, Seq<u16>, Seq<bool>)> {
    if b.len() < 8 || b.len() != cache_len(le_u32_at(b, 0)) {
        None
    } else {
        let cols = le_u32_at(b, 0);
        let base = 8 + 2 * (MEL_BANDS as int) * cols;
        Some((
            cols,
            le_u32_at(b, 4) as u32,
            Seq::new((MEL_BANDS as int * cols) as nat, |i: int| le_u16_at(b, 8 + 2 * i) as u16),
            Seq::new(cols as nat, |i: int| bit_of(b[base + i / 8], (i % 8) as u32)),
        ))
    }
}

/// Decodes the bytes of a feature cache file (see [`decoded`]).
pub fn decode_features(data: &[u8]) -> (r: Option<FeatureCache>)
    ensures
        match decoded(data@) {
            None => r is None,
            Some((cols, scale, codes, uv)) => r matches Some(fc) && fc.cols == cols && fc.scale_bits == scale
                && fc.mel_codes@ == codes && fc.unvoiced@ == uv,
        },
{
    if data.len() < 8 {
        return None;
    }
    let cols32: u32 = data[0] as u32 + 256 * (data[1] as u32) + 65536 * (data[2] as u32) + 16777216 * (data[3] as u32);
    let scale_bits: u32 = data[4] as u32 + 256 * (data[5] as u32) + 65536 * (data[6] as u32) + 16777216 * (data[7] as u32);
    let expected: u64 = 8 + 256 * (cols32 as u64) + (cols32 as u64 + 7) / 8;
    if data.len() as u64 != expected {
        return None;
    }
    let dl: usize = data.len();
    let cols: usize = cols32 as usize;
    let n_codes: usize = MEL_BANDS * cols;
    let mut codes: Vec<u16> = Vec::new();
    let mut i: usize = 0;
    while i < n_codes
        invariant
            n_codes == MEL_BANDS * cols,
            data@.len() == cache_len(cols as int),
            data@.len() == dl,
            8 + 2 * n_codes <= data@.len(),
            i <= n_codes,
            codes@ =~= Seq::new(i as nat, |j: int| le_u16_at(data@, 8 + 2 * j) as u16),
        decreases n_codes - i,
    {
        let c: u16 = data[8 + 2 * i] as u16 + 256 * (data[8 + 2 * i + 1] as u16);
        codes.push(c);
        i = i + 1;
    }
    let base: usize = 8 + 2 * n_codes;
    let mut uv: Vec<bool> = Vec::new();
    let mut k: usize = 0;
    while k < cols
        invariant
            n_codes == MEL_BANDS * cols,
            base == 8 + 2 * (MEL_BANDS as int) * cols,
            data@.len() == cache_len(cols as int),
            data@.len() == dl,
            k <= cols,
            uv@ =~= Seq::new(k as nat, |j: int| bit_of(data@[base + j / 8], (j % 8) as u32)),
        decreases cols - k,
    {
        let byte: u8 = data[base + k / 8];
        let sh: u32 = (k % 8) as u32;
        uv.push((byte >> sh) & 1u8 == 1u8);
        k = k + 1;
    }
    Some(FeatureCache { cols, scale_bits, mel_codes: codes, unvoiced: uv })
}

/// Little-endian bytes of a 32-bit word.
pub open spec fn le_bytes32(x: u32) -> Seq<u8> {
    seq![(x % 256) as u8, ((x / 256) % 256) as u8, ((x / 65536) % 256) as u8, (x / 16777216) as u8]
}

/// Little-endian bytes of a sequence of 16-bit codes.
pub open spec fn codes_bytes(codes: Seq<u16>) -> Seq<u8> {
    Seq::new(2 * codes.len(), |i: int| if i % 2 == 0 { (codes[i / 2] % 256) as u8 } else { (codes[i / 2] / 256) as u8 })
}

/// Weight `w` when flag `i` of `uv` exists and is set, else zero.
pub open spec fn flag_weight(uv: Seq<bool>, i: int, w: int) -> int {
    if 0 <= i < uv.len() && uv[i] { w } else { 0 }
}

/// Byte `j` of the packed bit field: flag `8 * j + k` as bit `k`.
pub open spec fn packed_byte(uv: Seq<bool>, j: int) -> u8 {
    (flag_weight(uv, 8 * j, 1) + flag_weight(uv, 8 * j + 1, 2) + flag_weight(uv, 8 * j + 2, 4)
        + flag_weight(uv, 8 * j + 3, 8) + flag_weight(uv, 8 * j + 4, 16) + flag_weight(uv, 8 * j + 5, 32)
        + flag_weight(uv, 8 * j + 6, 64) + flag_weight(uv, 8 * j + 7, 128)) as u8
}

/// Bytes written for a cache: frame count (as a 32-bit word), scale, the
/// codes, and `(cols + 7) / 8` bytes of packed flags.
pub open spec fn encoded(cols: usize, scale_bits: u32, codes: Seq<u16>, uv: Seq<bool>) -> Seq<u8> {
    le_bytes32(cols as u32) + le_bytes32(scale_bits) + codes_bytes(codes)
        + Seq::new(uv_byte_count(cols as int) as nat, |j: int| packed_byte(uv, j))
}

fn push_word(buf: &mut Vec<u8>, x: u32)
    ensures
        final(buf)@ == old(buf)@ + le_bytes32(x),
{
    buf.push((x % 256) as u8);
    buf.push(((x / 256) % 256) as u8);
    buf.push(((x / 65536) % 256) as u8);
    buf.push((x / 16777216) as u8);
    assert(buf@ =~= old(buf)@ + le_bytes32(x));
}

/// Encodes a feature cache (see [`encoded`]).
pub fn encode_features(cols: usize, scale_bits: u32, mel_codes: &[u16], unvoiced: &[bool]) -> (r: Vec<u8>)
    requires
        cols <= usize::MAX - 7,
        forall|i: int| 0 <= i < unvoiced@.len() && #[trigger] unvoiced@[i] ==> i / 8 < uv_byte_count(cols as int),
    ensures
        r@ == encoded(cols, scale_bits, mel_codes@, unvoiced@),
{
    let mut buf: Vec<u8> = Vec::new();
    push_word(&mut buf, cols as u32);
    push_word(&mut buf, scale_bits);
    let ghost head = buf@;
    let mut i: usize = 0;
    while i < mel_codes.len()
        invariant
            i <= mel_codes@.len(),
            buf@ =~= head + codes_bytes(mel_codes@.subrange(0, i as int)),
        decreases mel_codes.len() - i,
    {
        let q: u16 = mel_codes[i];
        buf.push((q % 256) as u8);
        buf.push((q / 256) as u8);
        i = i + 1;
    }
    assert(mel_codes@.subrange(0, mel_codes@.len() as int) =~= mel_codes@);
    let ghost mid = buf@;
    let nbytes: usize = (cols + 7) / 8;
    let mut j: usize = 0;
    while j < nbytes
        invariant
            nbytes == uv_byte_count(cols as int),
            j <= nbytes,
            buf@ =~= mid + Seq::new(j as nat, |t: int| packed_byte(unvoiced@, t)),
        decreases nbytes - j,
    {
        let mut byte: u32 = 0;
        let mut k: usize = 0;
        let mut w: u32 = 1;
        while k < 8
            invariant
                k <= 8,
                j < nbytes,
                nbytes <= usize::MAX / 8 + 1,
                w == (if k == 0 { 1u32 } else if k == 1 { 2 } else if k == 2 { 4 } else if k == 3 { 8 } else if k == 4 { 16 }
                    else if k == 5 { 32 } else if k == 6 { 64 } else if k == 7 { 128 } else { 256 }),
                byte == (if k > 0 { flag_weight(unvoiced@, 8 * j, 1) } else { 0 })
                    + (if k > 1 { flag_weight(unvoiced@, 8 * j + 1, 2) } else { 0 })
                    + (if k > 2 { flag_weight(unvoiced@, 8 * j + 2, 4) } else { 0 })
                    + (if k > 3 { flag_weight(unvoiced@, 8 * j + 3, 8) } else { 0 })
                    + (if k > 4 { flag_weight(unvoiced@, 8 * j + 4, 16) } else { 0 })
                    + (if k > 5 { flag_weight(unvoiced@, 8 * j + 5, 32) } else { 0 })
                    + (if k > 6 { flag_weight(unvoiced@, 8 * j + 6, 64) } else { 0 })
                    + (if k > 7 { flag_weight(unvoiced@, 8 * j + 7, 128) } else { 0 }),
            decreases 8 - k,
        {
            let idx: usize = 8 * j + k;
            if idx < unvoiced.len() && unvoiced[idx] {
                byte = byte + w;
            }
            w = w * 2;
            k = k + 1;
        }
        buf.push(byte as u8);
        j = j + 1;
    }
    buf
}

proof fn lemma_le_word(x: u32)
    ensures
        ((x % 256) as u8) as int + 256 * (((x / 256) % 256) as u8) as int + 65536 * (((x / 65536) % 256) as u8) as int
            + 16777216 * ((x / 16777216) as u8) as int == x,
{
    assert(((x % 256) as u8) as int + 256 * (((x / 256) % 256) as u8) as int + 65536 * (((x / 65536) % 256) as u8) as int
        + 16777216 * ((x / 16777216) as u8) as int == x) by (bit_vector);
}

proof fn lemma_bit_of_sum(a0: u8, a1: u8, a2: u8, a3: u8, a4: u8, a5: u8, a6: u8, a7: u8, k: u32)
    requires
        a0 <= 1, a1 <= 1, a2 <= 1, a3 <= 1, a4 <= 1, a5 <= 1, a6 <= 1, a7 <= 1,
        k < 8,
    ensures
        bit_of((a0 + 2 * a1 + 4 * a2 + 8 * a3 + 16 * a4 + 32 * a5 + 64 * a6 + 128 * a7) as u8, k) == (
            (k == 0 && a0 == 1) || (k == 1 && a1 == 1) || (k == 2 && a2 == 1) || (k == 3 && a3 == 1)
            || (k == 4 && a4 == 1) || (k == 5 && a5 == 1) || (k == 6 && a6 == 1) || (k == 7 && a7 == 1)),
{
    assert(
        ((((a0 + 2 * a1 + 4 * a2 + 8 * a3 + 16 * a4 + 32 * a5 + 64 * a6 + 128 * a7) as u8) >> k) & 1u8 == 1u8) == (
            (k == 0 && a0 == 1) || (k == 1 && a1 == 1) || (k == 2 && a2 == 1) || (k == 3 && a3 == 1)
            || (k == 4 && a4 == 1) || (k == 5 && a5 == 1) || (k == 6 && a6 == 1) || (k == 7 && a7 == 1))) by (bit_vector)
        requires
            a0 <= 1, a1 <= 1, a2 <= 1, a3 <= 1, a4 <= 1, a5 <= 1, a6 <= 1, a7 <= 1,
            k < 8;
}

/// 1 when flag `i` of `uv` exists and is set, else 0.
pub open spec fn flag_bit(uv: Seq<bool>, i: int) -> u8 {
    if 0 <= i < uv.len() && uv[i] { 1 } else { 0 }
}

proof fn lemma_packed_bit(uv: Seq<bool>, i: int)
    requires
        0 <= i,
    ensures
        bit_of(packed_byte(uv, i / 8), (i % 8) as u32) == (i < uv.len() && uv[i]),
{
    let j = i / 8;
    let k = (i % 8) as u32;
    assert(packed_byte(uv, j) == (flag_bit(uv, 8 * j) + 2 * flag_bit(uv, 8 * j + 1) + 4 * flag_bit(uv, 8 * j + 2)
        + 8 * flag_bit(uv, 8 * j + 3) + 16 * flag_bit(uv, 8 * j + 4) + 32 * flag_bit(uv, 8 * j + 5)
        + 64 * flag_bit(uv, 8 * j + 6) + 128 * flag_bit(uv, 8 * j + 7)) as u8);
    lemma_bit_of_sum(flag_bit(uv, 8 * j), flag_bit(uv, 8 * j + 1), flag_bit(uv, 8 * j + 2), flag_bit(uv, 8 * j + 3),
        flag_bit(uv, 8 * j + 4), flag_bit(uv, 8 * j + 5), flag_bit(uv, 8 * j + 6), flag_bit(uv, 8 * j + 7), k);
    assert(i == 8 * j + k);
}

/// A cache read back gives what was written: the frame count, the scale,
/// every mel code and every voicing flag.
pub proof fn lemma_cache_roundtrip(cols: usize, scale_bits: u32, codes: Seq<u16>, uv: Seq<bool>)
    requires
        cols <= u32::MAX,
        codes.len() == MEL_BANDS * cols,
        uv.len() == cols,
    ensures
        decoded(encoded(cols, scale_bits, codes, uv)) == Some((cols as int, scale_bits, codes, uv)),
{
    let b = encoded(cols, scale_bits, codes, uv);
    let cb = codes_bytes(codes);
    let n = MEL_BANDS as int * cols;
    let base = 8 + 2 * n;
    let packed = Seq::new(uv_byte_count(cols as int) as nat, |j: int| packed_byte(uv, j));
    assert(b.len() == cache_len(cols as int));
    assert(cols as u32 == cols);
    lemma_le_word(cols as u32);
    lemma_le_word(scale_bits);
    assert(le_u32_at(b, 0) == cols);
    assert(le_u32_at(b, 4) == scale_bits);
    let dec = decoded(b).unwrap();
    assert(dec.2 =~= codes) by {
        assert forall|i: int| 0 <= i < n implies #[trigger] dec.2[i] == codes[i] by {
            assert(b[8 + 2 * i] == cb[2 * i]);
            assert(b[8 + 2 * i + 1] == cb[2 * i + 1]);
            assert((2 * i) / 2 == i);
            assert((2 * i + 1) / 2 == i);
            assert((2 * i) % 2 == 0);
            assert((2 * i + 1) % 2 == 1);
        }
    }
    assert(dec.3 =~= uv) by {
        assert forall|i: int| 0 <= i < cols implies #[trigger] dec.3[i] == uv[i] by {
            assert(i / 8 < uv_byte_count(cols as int));
            assert(b[base + i / 8] == packed[i / 8]);
            lemma_packed_bit(uv, i);
        }
    }
}

proof fn lemma_word_bytes(b: Seq<u8>, p: int)
    requires
        0 <= p,
        p + 4 <= b.len(),
    ensures
        le_bytes32(le_u32_at(b, p) as u32) == b.subrange(p, p + 4),
{
    let (b0, b1, b2, b3) = (b[p], b[p + 1], b[p + 2], b[p + 3]);
    let x: u32 = (b0 as int + 256 * (b1 as int) + 65536 * (b2 as int) + 16777216 * (b3 as int)) as u32;
    assert(x == b0 as u32 + 256 * (b1 as u32) + 65536 * (b2 as u32) + 16777216 * (b3 as u32));
    assert((x % 256) as u8 == b0 && ((x / 256) % 256) as u8 == b1 && ((x / 65536) % 256) as u8 == b2
        && (x / 16777216) as u8 == b3) by (bit_vector)
        requires
            x == b0 as u32 + 256 * (b1 as u32) + 65536 * (b2 as u32) + 16777216 * (b3 as u32);
    assert(le_bytes32(x) =~= b.subrange(p, p + 4));
}

proof fn lemma_byte_from_bits(x: u8)
    ensures
        x == (((x >> 0u32) & 1u8) + 2 * ((x >> 1u32) & 1u8) + 4 * ((x >> 2u32) & 1u8) + 8 * ((x >> 3u32) & 1u8)
            + 16 * ((x >> 4u32) & 1u8) + 32 * ((x >> 5u32) & 1u8) + 64 * ((x >> 6u32) & 1u8) + 128 * ((x >> 7u32) & 1u8)) as u8,
        forall|k: u32| k < 8 ==> (x >> k) & 1u8 <= 1u8,
{
    assert(x == (((x >> 0u32) & 1u8) + 2 * ((x >> 1u32) & 1u8) + 4 * ((x >> 2u32) & 1u8) + 8 * ((x >> 3u32) & 1u8)
        + 16 * ((x >> 4u32) & 1u8) + 32 * ((x >> 5u32) & 1u8) + 64 * ((x >> 6u32) & 1u8) + 128 * ((x >> 7u32) & 1u8)) as u8)
        by (bit_vector);
    assert(forall|k: u32| k < 8 ==> (x >> k) & 1u8 <= 1u8) by (bit_vector);
}

/// The bits of the last flag byte beyond the stored frames are clear.
pub open spec fn flag_padding_clear(b: Seq<u8>) -> bool {
    let cols = le_u32_at(b, 0);
    let base = 8 + 2 * (MEL_BANDS as int) * cols;
    forall|i: int| cols <= i < 8 * uv_byte_count(cols) ==> !#[trigger] bit_of(b[base + i / 8], (i % 8) as u32)
}

/// Writing back what was read from a cache file gives the same bytes, when
/// the unused bits of its last flag byte are clear.
pub proof fn lemma_cache_rewrite(b: Seq<u8>)
    requires
        decoded(b) is Some,
        flag_padding_clear(b),
    ensures
        ({
            let (cols, scale, codes, uv) = decoded(b).unwrap();
            encoded(cols as usize, scale, codes, uv) == b
        }),
{
    let (cols, scale, codes, uv) = decoded(b).unwrap();
    let base = 8 + 2 * (MEL_BANDS as int) * cols;
    let n = MEL_BANDS as int * cols;
    let nb = uv_byte_count(cols);
    let e = encoded(cols as usize, scale, codes, uv);
    assert(0 <= cols <= u32::MAX);
    assert(cols as usize as u32 == cols);
    lemma_word_bytes(b, 0);
    lemma_word_bytes(b, 4);
    let cb = codes_bytes(codes);
    assert(cb =~= b.subrange(8, base)) by {
        assert forall|i: int| 0 <= i < 2 * n implies #[trigger] cb[i] == b[8 + i] by {
            let t = i / 2;
            assert(0 <= t < n);
            if i % 2 == 0 {
                assert(i == 2 * t);
            } else {
                assert(i == 2 * t + 1);
            }
        }
    }
    let packed = Seq::new(nb as nat, |j: int| packed_byte(uv, j));
    assert(packed =~= b.subrange(base, base + nb)) by {
        assert forall|j: int| 0 <= j < nb implies #[trigger] packed[j] == b[base + j] by {
            let x = b[base + j];
            lemma_byte_from_bits(x);
            assert forall|k: int| 0 <= k < 8 implies #[trigger] flag_bit(uv, 8 * j + k) == (x >> (k as u32)) & 1u8 by {
                let i = 8 * j + k;
                assert(i / 8 == j && i % 8 == k);
                if i < cols {
                    assert(uv[i] == bit_of(x, k as u32));
                } else {
                    assert(!bit_of(b[base + i / 8], (i % 8) as u32));
                }
            }
            assert(flag_bit(uv, 8 * j) == (x >> 0u32) & 1u8);
            assert(flag_bit(uv, 8 * j + 1) == (x >> 1u32) & 1u8);
            assert(flag_bit(uv, 8 * j + 2) == (x >> 2u32) & 1u8);
            assert(flag_bit(uv, 8 * j + 3) == (x >> 3u32) & 1u8);
            assert(flag_bit(uv, 8 * j + 4) == (x >> 4u32) & 1u8);
            assert(flag_bit(uv, 8 * j + 5) == (x >> 5u32) & 1u8);
            assert(flag_bit(uv, 8 * j + 6) == (x >> 6u32) & 1u8);
            assert(flag_bit(uv, 8 * j + 7) == (x >> 7u32) & 1u8);
        }
    }
    assert(e =~= b);
}

/// The eight bytes that open an FRQ pitch file: "FREQ0003".
pub open spec fn frq_magic() -> Seq<u8> {
    seq![0x46u8, 0x52u8, 0x45u8, 0x51u8, 0x30u8, 0x30u8, 0x30u8, 0x33u8]
}

/// Reading of an FRQ file for `origin_frames` output frames: the samples per
/// pitch frame (bytes 8..12) and, for each of the frames counted at bytes
/// 36..40, the bit pattern of its pitch word (the fourth word of the frame's
/// sixteen-byte record, in hundreds of hertz). Fails on a short file, a wrong
/// opening, a non-positive frame count, zero samples per frame, no output
/// frames, or a size other than 40 plus sixteen bytes per frame.
pub open spec fn frq_parsed(b: Seq<u8>, origin_frames: int) -> Option<(int, Seq<u32>)> {
    if b.len() < 40 || b.subrange(0, 8) != frq_magic() {
        None
    } else {
        let spf = le_i32_at(b, 8);
        let n = le_i32_at(b, 36);
        if n <= 0 || spf == 0 || origin_frames == 0 || b.len() != 40 + 16 * n {
            None
        } else {
            Some((spf, Seq::new(n as nat, |i: int| le_u32_at(b, 40 + 16 * i + 12) as u32)))
        }
    }
}

/// An FRQ file is read exactly when it opens with "FREQ0003", its samples
/// per frame (the signed word at byte 8) are not zero, its frame count (the
/// signed word at byte 36) is positive, it is exactly 40 bytes plus sixteen
/// per frame long, and some output frames are asked for; it then gives the
/// samples per frame and, for every frame `k` the file counts, the word at
/// byte `40 + 16 * k + 12`.
pub proof fn lemma_frq_reads_every_frame(b: Seq<u8>, origin_frames: int)
    ensures
        frq_parsed(b, origin_frames) is Some <==> (b.len() >= 40
            && b.subrange(0, 8) == seq![0x46u8, 0x52u8, 0x45u8, 0x51u8, 0x30u8, 0x30u8, 0x30u8, 0x33u8]
            && le_i32_at(b, 8) != 0 && le_i32_at(b, 36) > 0 && b.len() == 40 + 16 * le_i32_at(b, 36)
            && origin_frames != 0),
        frq_parsed(b, origin_frames) matches Some((spf, f0s)) ==> spf == le_i32_at(b, 8)
            && f0s.len() == le_i32_at(b, 36)
            && (forall|k: int| 0 <= k < f0s.len() ==> #[trigger] f0s[k] == le_u32_at(b, 40 + 16 * k + 12) as u32),
{
}

/// What the pitch lookup needs from an FRQ file.
pub struct FrqData {
    /// Samples of audio per pitch frame.
    pub samples_per_frame: i32,
    /// Bit pattern of each frame's pitch word, in hundreds of hertz.
    pub f0_bits: Vec<u32>,
}

fn read_i32_at(b: &[u8], p: usize) -> (r: i32)
    requires
        p + 4 <= b@.len(),
    ensures
        r as int == le_i32_at(b@, p as int),
{
    let u: u32 = b[p] as u32 + 256 * (b[p + 1] as u32) + 65536 * (b[p + 2] as u32) + 16777216 * (b[p + 3] as u32);
    if u < 0x8000_0000 {
        u as i32
    } else {
        let s: i64 = u as i64 - 0x1_0000_0000i64;
        s as i32
    }
}

/// Checks and reads an FRQ file's bytes (see [`frq_parsed`]).
pub fn parse_frq(bytes: &[u8], origin_frames: usize) -> (r: Option<FrqData>)
    ensures
        match frq_parsed(bytes@, origin_frames as int) {
            None => r is None,
            Some((spf, f0s)) => r matches Some(fd) && fd.samples_per_frame as int == spf && fd.f0_bits@ == f0s,
        },
{
    if bytes.len() < 40 {
        return None;
    }
    let magic: [u8; 8] = [0x46u8, 0x52u8, 0x45u8, 0x51u8, 0x30u8, 0x30u8, 0x30u8, 0x33u8];
    let mut i: usize = 0;
    while i < 8
        invariant
            i <= 8,
            bytes@.len() >= 40,
            magic@ == frq_magic(),
            forall|j: int| 0 <= j < i ==> bytes@[j] == frq_magic()[j],
        decreases 8 - i,
    {
        if bytes[i] != magic[i] {
            assert(bytes@.subrange(0, 8)[i as int] != frq_magic()[i as int]);
            return None;
        }
        i = i + 1;
    }
    assert(bytes@.subrange(0, 8) =~= frq_magic());
    let spf: i32 = read_i32_at(bytes, 8);
    let n: i32 = read_i32_at(bytes, 36);
    if n <= 0 || spf == 0 || origin_frames == 0 {
        return None;
    }
    let n: usize = n as usize;
    if (bytes.len() - 40) / 16 != n || (bytes.len() - 40) % 16 != 0 {
        return None;
    }
    let dl: usize = bytes.len();
    let mut f0s: Vec<u32> = Vec::new();
    let mut k: usize = 0;
    while k < n
        invariant
            k <= n,
            dl == bytes@.len(),
            bytes@.len() == 40 + 16 * n,
            f0s@ =~= Seq::new(k as nat, |t: int| le_u32_at(bytes@, 40 + 16 * t + 12) as u32),
        decreases n - k,
    {
        let p: usize = 40 + 16 * k + 12;
        let w: u32 = bytes[p] as u32 + 256 * (bytes[p + 1] as u32) + 65536 * (bytes[p + 2] as u32)
            + 16777216 * (bytes[p + 3] as u32);
        f0s.push(w);
        k = k + 1;
    }
    Some(FrqData { samples_per_frame: spf, f0_bits: f0s })
}

} // verus!
