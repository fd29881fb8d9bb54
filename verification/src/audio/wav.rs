//! Writing `.wav` files: the one place that lays out a RIFF header.
//!
//! Two sample formats, for two jobs. 16-bit PCM is what every player accepts;
//! 32-bit float is for measurement, and stores a sample as it was.

use vstd::prelude::*;

use crate::bytes::{
    half_bytes, lemma_word_reads_back, lemma_words_read_back, push_half, push_word, push_words,
    word_at, word_bytes, words_at, words_bytes,
};

verus! {

/// What stands between the length in the RIFF header and the samples.
pub const HEADER_LEN: u32 = 36;

/// The tag of a file of whole numbers.
pub const WAVE_FORMAT_PCM: u16 = 1;

/// The tag of a file of floating-point numbers.
pub const WAVE_FORMAT_IEEE_FLOAT: u16 = 3;

/// A number that is at least one.
pub open spec fn at_least(n: int) -> int {
    if n < 1 {
        1
    } else {
        n
    }
}

/// How many bytes a frame takes.
pub open spec fn block_align(channels: u16, bits: u16) -> int {
    at_least(channels as int) * (bits as int / 8)
}

/// Whether the numbers of a header fit into their fields, the length of the whole
/// file among them.
pub open spec fn header_fits(channels: u16, sample_rate: u32, bits: u16, data_len: int) -> bool {
    &&& block_align(channels, bits) <= u16::MAX
    &&& at_least(sample_rate as int) * block_align(channels, bits) <= u32::MAX
    &&& HEADER_LEN + data_len <= u32::MAX
}

/// The start of a file: the RIFF header and the form type.
pub open spec fn riff_bytes(data_len: int) -> Seq<u8> {
    seq![0x52u8, 0x49, 0x46, 0x46] + word_bytes((HEADER_LEN + data_len) as u32) + seq![
        0x57u8,
        0x41,
        0x56,
        0x45,
    ]
}

/// The chunk that says what the samples are.
pub open spec fn fmt_bytes(format: u16, channels: int, rate: int, align: int, bits: u16) -> Seq<u8> {
    seq![0x66u8, 0x6d, 0x74, 0x20] + word_bytes(16) + half_bytes(format) + half_bytes(
        channels as u16,
    ) + word_bytes(rate as u32) + word_bytes((rate * align) as u32) + half_bytes(align as u16)
        + half_bytes(bits)
}

/// The header of the chunk that holds the samples.
pub open spec fn data_bytes(data_len: int) -> Seq<u8> {
    seq![0x64u8, 0x61, 0x74, 0x61] + word_bytes(data_len as u32)
}

/// Everything up to the samples.
pub open spec fn header_bytes(
    channels: u16,
    sample_rate: u32,
    format: u16,
    bits: u16,
    data_len: int,
) -> Seq<u8> {
    riff_bytes(data_len) + fmt_bytes(
        format,
        at_least(channels as int),
        at_least(sample_rate as int),
        block_align(channels, bits),
        bits,
    ) + data_bytes(data_len)
}

fn push_four(out: &mut Vec<u8>, a: u8, b: u8, c: u8, d: u8)
    ensures
        final(out)@ == old(out)@ + seq![a, b, c, d],
{
    out.push(a);
    out.push(b);
    out.push(c);
    out.push(d);
    assert(out@ =~= old(out)@ + seq![a, b, c, d]);
}

fn fmt_chunk(format: u16, channels: u16, rate: u32, align: u16, bits: u16) -> (r: Vec<u8>)
    requires
        rate * align <= u32::MAX,
    ensures
        r@ == fmt_bytes(format, channels as int, rate as int, align as int, bits),
{
    assert(rate as int * align as int >= 0) by (nonlinear_arith);
    let byte_rate: u32 = rate * align as u32;
    let mut out: Vec<u8> = Vec::new();
    push_four(&mut out, 0x66, 0x6d, 0x74, 0x20);
    assert(out@ =~= seq![0x66u8, 0x6d, 0x74, 0x20]);
    push_word(&mut out, 16);
    push_half(&mut out, format);
    push_half(&mut out, channels);
    push_word(&mut out, rate);
    push_word(&mut out, byte_rate);
    push_half(&mut out, align);
    push_half(&mut out, bits);
    out
}

/// Everything up to and including the header of the `data` chunk, for `data_len`
/// bytes of samples.
pub fn header(channels: u16, sample_rate: u32, format: u16, bits: u16, data_len: u64) -> (r: Vec<u8>)
    requires
        header_fits(channels, sample_rate, bits, data_len as int),
    ensures
        r@ == header_bytes(channels, sample_rate, format, bits, data_len as int),
{
    let count: u16 = if channels < 1 {
        1
    } else {
        channels
    };
    let rate: u32 = if sample_rate < 1 {
        1
    } else {
        sample_rate
    };
    let wide: u16 = bits / 8;
    assert(count as int * wide as int >= 0) by (nonlinear_arith);
    let align: u16 = count * wide;
    let len: u32 = data_len as u32;
    let mut out: Vec<u8> = Vec::new();
    push_four(&mut out, 0x52, 0x49, 0x46, 0x46);
    assert(out@ =~= seq![0x52u8, 0x49, 0x46, 0x46]);
    push_word(&mut out, HEADER_LEN + len);
    push_four(&mut out, 0x57, 0x41, 0x56, 0x45);
    let mut fmt = fmt_chunk(format, count, rate, align, bits);
    out.append(&mut fmt);
    let ghost before = out@;
    push_four(&mut out, 0x64, 0x61, 0x74, 0x61);
    push_word(&mut out, len);
    assert(out@ =~= before + data_bytes(data_len as int));
    out
}

/// The bytes of some samples of 16 bits.
pub open spec fn halves_bytes(s: Seq<i16>) -> Seq<u8>
    decreases s.len(),
{
    if s.len() == 0 {
        Seq::empty()
    } else {
        halves_bytes(s.drop_last()) + half_bytes(as_half(s.last()))
    }
}

/// A signed sample as the 16 bits it is stored in.
pub open spec fn as_half(v: i16) -> u16 {
    if v >= 0 {
        v as u16
    } else {
        (v + 0x1_0000) as u16
    }
}

/// Interleaved 16-bit PCM.
pub fn write_wav_i16(samples: &[i16], channels: u16, sample_rate: u32) -> (r: Vec<u8>)
    requires
        samples@.len() * 2 <= u64::MAX,
        header_fits(channels, sample_rate, 16, samples@.len() as int * 2),
    ensures
        r@ == header_bytes(channels, sample_rate, WAVE_FORMAT_PCM, 16, samples@.len() as int * 2)
            + halves_bytes(samples@),
{
    let n: usize = samples.len();
    let mut out = header(channels, sample_rate, WAVE_FORMAT_PCM, 16, n as u64 * 2);
    let ghost head = out@;
    let mut k: usize = 0;
    assert(halves_bytes(samples@.take(0)) =~= Seq::empty());
    assert(head + Seq::<u8>::empty() =~= head);
    while k < n
        invariant
            k <= n,
            n == samples@.len(),
            out@ == head + halves_bytes(samples@.take(k as int)),
        decreases n - k,
    {
        proof {
            let t = samples@.take(k + 1);
            assert(t.drop_last() =~= samples@.take(k as int));
            assert(t.last() == samples@[k as int]);
        }
        let v: i16 = samples[k];
        let half: u16 = if v >= 0 {
            v as u16
        } else {
            (v as i32 + 0x1_0000) as u16
        };
        let ghost before = out@;
        push_half(&mut out, half);
        assert(out@ =~= head + (halves_bytes(samples@.take(k as int)) + half_bytes(half)));
        k += 1;
    }
    assert(samples@.take(n as int) =~= samples@);
    out
}

/// Interleaved 32-bit float: a sample is stored as its bits.
pub fn write_wav_f32(samples: &Vec<u32>, channels: u16, sample_rate: u32) -> (r: Vec<u8>)
    requires
        samples@.len() * 4 <= u64::MAX,
        header_fits(channels, sample_rate, 32, samples@.len() as int * 4),
    ensures
        r@ == header_bytes(channels, sample_rate, WAVE_FORMAT_IEEE_FLOAT, 32, samples@.len() as int * 4)
            + words_bytes(samples@),
{
    let n: usize = samples.len();
    let mut out = header(channels, sample_rate, WAVE_FORMAT_IEEE_FLOAT, 32, n as u64 * 4);
    push_words(&mut out, samples);
    out
}

/// The half word whose bytes start at a place.
pub open spec fn half_at(s: Seq<u8>, i: int) -> u16 {
    (s[i] + 256 * s[i + 1]) as u16
}

proof fn lemma_half_reads_back(a: Seq<u8>, n: u16, b: Seq<u8>)
    ensures
        half_at(a + half_bytes(n) + b, a.len() as int) == n,
{
    let s = a + half_bytes(n) + b;
    let i = a.len() as int;
    let w = half_bytes(n);
    assert(s[i] == w[0] && s[i + 1] == w[1]);
}

/// A file says how long it is right behind its first mark.
proof fn lemma_riff_len(data_len: int, rest: Seq<u8>)
    requires
        0 <= data_len,
        HEADER_LEN + data_len <= u32::MAX,
    ensures
        word_at(riff_bytes(data_len) + rest, 4) == HEADER_LEN + data_len,
{
    let mark = seq![0x52u8, 0x49, 0x46, 0x46];
    let form = seq![0x57u8, 0x41, 0x56, 0x45];
    let n = (HEADER_LEN + data_len) as u32;
    lemma_word_reads_back(mark, n, form + rest);
    assert(riff_bytes(data_len) + rest =~= mark + word_bytes(n) + (form + rest));
}

/// A file declares what it holds: the format, the channels, the rate, the width
/// of a frame and of a sample, and how many bytes of samples follow.
pub proof fn law_a_file_declares_what_it_holds(
    channels: u16,
    sample_rate: u32,
    format: u16,
    bits: u16,
    data_len: int,
    data: Seq<u8>,
)
    requires
        header_fits(channels, sample_rate, bits, data_len),
        data_len >= 0,
    ensures
        ({
            let file = header_bytes(channels, sample_rate, format, bits, data_len) + data;
            &&& file.take(4) == seq![0x52u8, 0x49, 0x46, 0x46]
            &&& word_at(file, 4) == HEADER_LEN + data_len
            &&& file.subrange(8, 12) == seq![0x57u8, 0x41, 0x56, 0x45]
            &&& half_at(file, 20) == format
            &&& half_at(file, 22) == at_least(channels as int)
            &&& word_at(file, 24) == at_least(sample_rate as int)
            &&& half_at(file, 32) == block_align(channels, bits)
            &&& half_at(file, 34) == bits
            &&& word_at(file, 40) == data_len
            &&& file.skip(44) == data
        }),
{
    let align = block_align(channels, bits);
    assert(align >= 0) by (nonlinear_arith)
        requires
            align == at_least(channels as int) * (bits as int / 8),
            at_least(channels as int) >= 1,
            bits as int / 8 >= 0,
    ;
    let rate = at_least(sample_rate as int);
    let file = header_bytes(channels, sample_rate, format, bits, data_len) + data;
    assert(word_at(file, 4) == HEADER_LEN + data_len) by {
        let rest = fmt_bytes(format, at_least(channels as int), rate, align, bits) + data_bytes(
            data_len,
        ) + data;
        assert(file =~= riff_bytes(data_len) + rest);
        lemma_riff_len(data_len, rest);
    }
    let a = seq![0x52u8, 0x49, 0x46, 0x46] + word_bytes((HEADER_LEN + data_len) as u32)
        + seq![0x57u8, 0x41, 0x56, 0x45, 0x66, 0x6d, 0x74, 0x20] + word_bytes(16);
    let b = a + half_bytes(format);
    let c = b + half_bytes(at_least(channels as int) as u16);
    let d = c + word_bytes(rate as u32) + word_bytes((rate * align) as u32);
    let e = d + half_bytes(align as u16);
    let f = e + half_bytes(bits) + seq![0x64u8, 0x61, 0x74, 0x61];
    let tail = word_bytes(data_len as u32) + data;
    assert(file =~= f + word_bytes(data_len as u32) + data);
    lemma_word_reads_back(f, data_len as u32, data);
    let after_bits = seq![0x64u8, 0x61, 0x74, 0x61] + tail;
    assert(file =~= e + half_bytes(bits) + after_bits);
    lemma_half_reads_back(e, bits, after_bits);
    let after_align = half_bytes(bits) + after_bits;
    assert(file =~= d + half_bytes(align as u16) + after_align);
    lemma_half_reads_back(d, align as u16, after_align);
    let after_rate = word_bytes((rate * align) as u32) + half_bytes(align as u16) + after_align;
    assert(file =~= c + word_bytes(rate as u32) + after_rate);
    lemma_word_reads_back(c, rate as u32, after_rate);
    let after_channels = word_bytes(rate as u32) + after_rate;
    assert(file =~= b + half_bytes(at_least(channels as int) as u16) + after_channels);
    lemma_half_reads_back(b, at_least(channels as int) as u16, after_channels);
    let after_format = half_bytes(at_least(channels as int) as u16) + after_channels;
    assert(file =~= a + half_bytes(format) + after_format);
    lemma_half_reads_back(a, format, after_format);
    assert(file.take(4) =~= seq![0x52u8, 0x49, 0x46, 0x46]);
    assert(file.subrange(8, 12) =~= seq![0x57u8, 0x41, 0x56, 0x45]);
    assert(file.skip(44) =~= data);
}

proof fn lemma_halves_len(s: Seq<i16>)
    ensures
        halves_bytes(s).len() == 2 * s.len(),
    decreases s.len(),
{
    if s.len() > 0 {
        lemma_halves_len(s.drop_last());
    }
}

/// Samples of 16 bits read back from their bytes, each of them apart from every
/// other.
pub proof fn law_samples_read_back(s: Seq<i16>, k: int)
    requires
        0 <= k < s.len(),
    ensures
        half_at(halves_bytes(s), 2 * k) == as_half(s[k]),
        forall|a: i16, b: i16| #[trigger] as_half(a) == #[trigger] as_half(b) ==> a == b,
    decreases s.len(),
{
    let front = s.drop_last();
    lemma_halves_len(front);
    if k < front.len() {
        law_samples_read_back(front, k);
        assert(front[k] == s[k]);
    } else {
        lemma_half_reads_back(halves_bytes(front), as_half(s.last()), Seq::empty());
        assert(halves_bytes(s) =~= halves_bytes(front) + half_bytes(as_half(s.last()))
            + Seq::<u8>::empty());
    }
}

/// Samples of 32 bits read back as they were.
pub proof fn law_float_samples_are_stored_verbatim(head: Seq<u8>, s: Seq<u32>)
    ensures
        words_at(head + words_bytes(s), head.len() as int, s.len()) == s,
{
    lemma_words_read_back(head, s, Seq::empty());
    assert(head + words_bytes(s) + Seq::<u8>::empty() =~= head + words_bytes(s));
}

/// A file's bytes a second are its frames a second times the bytes of a frame.
pub proof fn law_a_file_declares_its_byte_rate(
    channels: u16,
    sample_rate: u32,
    format: u16,
    bits: u16,
    data_len: int,
    data: Seq<u8>,
)
    requires
        header_fits(channels, sample_rate, bits, data_len),
        data_len >= 0,
    ensures
        word_at(header_bytes(channels, sample_rate, format, bits, data_len) + data, 28) == at_least(
            sample_rate as int,
        ) * block_align(channels, bits),
{
    let align = block_align(channels, bits);
    let rate = at_least(sample_rate as int);
    assert(align >= 0 && rate * align >= 0) by (nonlinear_arith)
        requires
            align == at_least(channels as int) * (bits as int / 8),
            at_least(channels as int) >= 1,
            rate >= 1,
            bits as int / 8 >= 0,
    ;
    let n = (rate * align) as u32;
    let file = header_bytes(channels, sample_rate, format, bits, data_len) + data;
    let head = riff_bytes(data_len) + seq![0x66u8, 0x6d, 0x74, 0x20] + word_bytes(16)
        + half_bytes(format) + half_bytes(at_least(channels as int) as u16) + word_bytes(
        rate as u32,
    );
    let tail = half_bytes(align as u16) + half_bytes(bits) + data_bytes(data_len) + data;
    assert(file =~= head + word_bytes(n) + tail);
    lemma_word_reads_back(head, n, tail);
}

/// A file marks its format and its samples, and says that the format takes sixteen
/// bytes.
pub proof fn law_a_file_is_marked(
    channels: u16,
    sample_rate: u32,
    format: u16,
    bits: u16,
    data_len: int,
    data: Seq<u8>,
)
    requires
        data_len >= 0,
    ensures
        ({
            let file = header_bytes(channels, sample_rate, format, bits, data_len) + data;
            &&& file.len() == 44 + data.len()
            &&& file.subrange(12, 16) == seq![0x66u8, 0x6d, 0x74, 0x20]
            &&& word_at(file, 16) == 16
            &&& file.subrange(36, 40) == seq![0x64u8, 0x61, 0x74, 0x61]
        }),
{
    let align = block_align(channels, bits);
    let rate = at_least(sample_rate as int);
    let file = header_bytes(channels, sample_rate, format, bits, data_len) + data;
    let riff = riff_bytes(data_len);
    let fmt = fmt_bytes(format, at_least(channels as int), rate, align, bits);
    assert(riff.len() == 12 && fmt.len() == 24);
    assert(file.subrange(12, 16) =~= fmt.take(4));
    assert(fmt.take(4) =~= seq![0x66u8, 0x6d, 0x74, 0x20]);
    assert(file.subrange(36, 40) =~= data_bytes(data_len).take(4));
    assert(data_bytes(data_len).take(4) =~= seq![0x64u8, 0x61, 0x74, 0x61]);
    assert(file[16] == fmt[4] && file[17] == fmt[5] && file[18] == fmt[6] && file[19] == fmt[7]);
}

/// No channel counts as one and no rate as one, and a frame is one sample of every
/// channel.
pub proof fn law_what_a_frame_takes(channels: u16, bits: u16)
    ensures
        channels >= 1 ==> at_least(channels as int) == channels,
        channels == 0 ==> at_least(channels as int) == 1,
        channels >= 1 && bits == 16 ==> block_align(channels, bits) == 2 * channels,
        channels >= 1 && bits == 32 ==> block_align(channels, bits) == 4 * channels,
        HEADER_LEN == 36,
        WAVE_FORMAT_PCM == 1,
        WAVE_FORMAT_IEEE_FLOAT == 3,
{
    assert(16u16 as int / 8 == 2 && 32u16 as int / 8 == 4);
    let c = at_least(channels as int);
    assert(c * 2 == 2 * c && c * 4 == 4 * c);
}

/// A sample is stored in two's complement.
pub proof fn law_how_a_sample_is_stored(v: i16)
    ensures
        v >= 0 ==> as_half(v) == v,
        v < 0 ==> as_half(v) == v + 65_536,
{
}

} // verus!
