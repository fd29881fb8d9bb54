//! Little-endian words in rows of bytes.

use vstd::prelude::*;

verus! {

/// A word's four bytes, lowest first.
pub open spec fn word_bytes(n: u32) -> Seq<u8> {
    seq![
        (n % 256) as u8,
        ((n / 256) % 256) as u8,
        ((n / 65_536) % 256) as u8,
        (n / 16_777_216) as u8,
    ]
}

/// A half word's two bytes, lowest first.
pub open spec fn half_bytes(n: u16) -> Seq<u8> {
    seq![(n % 256) as u8, (n / 256) as u8]
}

/// The word whose bytes start at a place.
pub open spec fn word_at(s: Seq<u8>, i: int) -> u32 {
    (s[i] + 256 * s[i + 1] + 65_536 * s[i + 2] + 16_777_216 * s[i + 3]) as u32
}

/// The `n` words whose bytes start at a place.
pub open spec fn words_at(s: Seq<u8>, i: int, n: nat) -> Seq<u32> {
    Seq::new(n, |k: int| word_at(s, i + 4 * k))
}

/// The bytes of words, one after the other.
pub open spec fn words_bytes(w: Seq<u32>) -> Seq<u8>
    decreases w.len(),
{
    if w.len() == 0 {
        Seq::empty()
    } else {
        words_bytes(w.drop_last()) + word_bytes(w.last())
    }
}

/// A word reads back from its bytes, wherever they stand.
pub proof fn lemma_word_reads_back(a: Seq<u8>, n: u32, b: Seq<u8>)
    ensures
        word_at(a + word_bytes(n) + b, a.len() as int) == n,
{
    let s = a + word_bytes(n) + b;
    let i = a.len() as int;
    let w = word_bytes(n);
    assert(s[i] == w[0] && s[i + 1] == w[1] && s[i + 2] == w[2] && s[i + 3] == w[3]);
    let q1 = n / 256;
    let q2 = n / 65_536;
    assert(q2 == q1 / 256);
    assert(n / 16_777_216 == q2 / 256);
}

pub proof fn lemma_words_bytes_len(w: Seq<u32>)
    ensures
        words_bytes(w).len() == 4 * w.len(),
    decreases w.len(),
{
    if w.len() > 0 {
        lemma_words_bytes_len(w.drop_last());
    }
}

pub proof fn lemma_words_bytes_add(a: Seq<u32>, b: Seq<u32>)
    ensures
        words_bytes(a + b) == words_bytes(a) + words_bytes(b),
    decreases b.len(),
{
    if b.len() == 0 {
        assert(a + b =~= a);
        assert(words_bytes(a) + words_bytes(b) =~= words_bytes(a));
    } else {
        assert((a + b).drop_last() =~= a + b.drop_last());
        lemma_words_bytes_add(a, b.drop_last());
        assert(words_bytes(a) + (words_bytes(b.drop_last()) + word_bytes(b.last())) =~= (words_bytes(
            a,
        ) + words_bytes(b.drop_last())) + word_bytes(b.last()));
    }
}

/// Words read back from their bytes, wherever they stand.
pub proof fn lemma_words_read_back(a: Seq<u8>, w: Seq<u32>, b: Seq<u8>)
    ensures
        words_at(a + words_bytes(w) + b, a.len() as int, w.len()) == w,
    decreases w.len(),
{
    let s = a + words_bytes(w) + b;
    if w.len() > 0 {
        let init = w.drop_last();
        let tail = word_bytes(w.last());
        lemma_words_bytes_len(init);
        lemma_words_read_back(a, init, tail + b);
        assert(s =~= a + words_bytes(init) + (tail + b));
        lemma_word_reads_back(a + words_bytes(init), w.last(), b);
        assert(s =~= (a + words_bytes(init)) + tail + b);
        let back = words_at(s, a.len() as int, w.len());
        assert forall|k: int| 0 <= k < w.len() implies back[k] == w[k] by {
            if k < init.len() {
                assert(words_at(s, a.len() as int, init.len())[k] == init[k]);
            }
        }
        assert(back =~= w);
    } else {
        assert(words_at(s, a.len() as int, 0) =~= w);
    }
}

/// Write a word.
pub fn push_word(out: &mut Vec<u8>, n: u32)
    ensures
        final(out)@ == old(out)@ + word_bytes(n),
{
    out.push((n % 256) as u8);
    out.push(((n / 256) % 256) as u8);
    out.push(((n / 65_536) % 256) as u8);
    out.push((n / 16_777_216) as u8);
    assert(out@ =~= old(out)@ + word_bytes(n));
}

/// Write a half word.
pub fn push_half(out: &mut Vec<u8>, n: u16)
    ensures
        final(out)@ == old(out)@ + half_bytes(n),
{
    out.push((n % 256) as u8);
    out.push((n / 256) as u8);
    assert(out@ =~= old(out)@ + half_bytes(n));
}

/// Write words, one after the other.
pub fn push_words(out: &mut Vec<u8>, w: &Vec<u32>)
    ensures
        final(out)@ == old(out)@ + words_bytes(w@),
{
    let mut i: usize = 0;
    assert(out@ =~= old(out)@ + words_bytes(w@.take(0)));
    while i < w.len()
        invariant
            i <= w.len(),
            out@ == old(out)@ + words_bytes(w@.take(i as int)),
        decreases w.len() - i,
    {
        push_word(out, w[i]);
        proof {
            assert(w@.take(i + 1).drop_last() =~= w@.take(i as int));
            assert(out@ =~= old(out)@ + words_bytes(w@.take(i + 1)));
        }
        i += 1;
    }
    assert(w@.take(i as int) =~= w@);
}

/// Write a word of zero so many times.
pub fn push_zeros(out: &mut Vec<u8>, n: usize)
    ensures
        final(out)@ == old(out)@ + words_bytes(Seq::new(n as nat, |i: int| 0u32)),
{
    let mut i: usize = 0;
    assert(out@ =~= old(out)@ + words_bytes(Seq::new(0, |i: int| 0u32)));
    while i < n
        invariant
            i <= n,
            out@ == old(out)@ + words_bytes(Seq::new(i as nat, |i: int| 0u32)),
        decreases n - i,
    {
        push_word(out, 0);
        proof {
            let z = Seq::new((i + 1) as nat, |i: int| 0u32);
            assert(z.drop_last() =~= Seq::new(i as nat, |i: int| 0u32));
            assert(out@ =~= old(out)@ + words_bytes(z));
        }
        i += 1;
    }
}

/// Read a word.
pub fn read_word(bytes: &[u8], i: usize) -> (r: u32)
    requires
        i + 4 <= bytes@.len(),
    ensures
        r == word_at(bytes@, i as int),
{
    let a: u32 = bytes[i] as u32;
    let b: u32 = bytes[i + 1] as u32;
    let c: u32 = bytes[i + 2] as u32;
    let d: u32 = bytes[i + 3] as u32;
    a + 256 * b + 65_536 * c + 16_777_216 * d
}

/// Read words.
pub fn read_words(bytes: &[u8], from: usize, n: usize) -> (r: Vec<u32>)
    requires
        from + 4 * n <= bytes@.len(),
    ensures
        r@ == words_at(bytes@, from as int, n as nat),
{
    let mut out: Vec<u32> = Vec::new();
    let len: usize = bytes.len();
    let mut i: usize = 0;
    while i < n
        invariant
            i <= n,
            from + 4 * n <= len,
            bytes@.len() == len,
            out@ == words_at(bytes@, from as int, i as nat),
        decreases n - i,
    {
        out.push(read_word(bytes, from + 4 * i));
        i += 1;
        assert(out@ =~= words_at(bytes@, from as int, i as nat));
    }
    out
}

/// The same bytes once more.
pub fn copy_bytes(v: &Vec<u8>) -> (r: Vec<u8>)
    ensures
        r@ == v@,
{
    let mut out: Vec<u8> = Vec::new();
    let mut i: usize = 0;
    while i < v.len()
        invariant
            i <= v.len(),
            out@ == v@.take(i as int),
        decreases v.len() - i,
    {
        out.push(v[i]);
        i += 1;
        assert(out@ =~= v@.take(i as int));
    }
    assert(out@ =~= v@);
    out
}

/// Whether two rows of bytes are the same.
pub fn same_bytes(a: &Vec<u8>, b: &Vec<u8>) -> (r: bool)
    ensures
        r == (a@ == b@),
{
    if a.len() != b.len() {
        return false;
    }
    let mut i: usize = 0;
    while i < a.len()
        invariant
            i <= a.len(),
            a.len() == b.len(),
            forall|k: int| 0 <= k < i ==> a@[k] == b@[k],
        decreases a.len() - i,
    {
        if a[i] != b[i] {
            return false;
        }
        i += 1;
    }
    assert(a@ =~= b@);
    true
}

/// A word is four bytes, the least first, and reads back as it was written.
pub proof fn law_a_word_reads_back(n: u32)
    ensures
        word_bytes(n).len() == 4,
        word_bytes(n)[0] + 256 * word_bytes(n)[1] + 65_536 * word_bytes(n)[2] + 16_777_216
            * word_bytes(n)[3] == n,
        word_at(word_bytes(n), 0) == n,
{
}

/// Half a word is two bytes, the lesser first.
pub proof fn law_half_a_word_is_two_bytes(n: u16)
    ensures
        half_bytes(n).len() == 2,
        half_bytes(n)[0] + 256 * half_bytes(n)[1] == n,
{
}

/// Words are written one after the other, four bytes each.
pub proof fn law_words_are_written_in_order(w: Seq<u32>)
    ensures
        words_bytes(w) == w.map_values(|n: u32| word_bytes(n)).flatten(),
        words_bytes(w).len() == 4 * w.len(),
    decreases w.len(),
{
    let f = |n: u32| word_bytes(n);
    w.map_values(f).lemma_flatten_and_flatten_alt_are_equivalent();
    if w.len() > 0 {
        law_words_are_written_in_order(w.drop_last());
        w.drop_last().map_values(f).lemma_flatten_and_flatten_alt_are_equivalent();
        assert(w.map_values(f).drop_last() =~= w.drop_last().map_values(f));
    }
}

/// A word is read from its four bytes, the least first, and words one after the
/// other.
pub proof fn law_how_words_are_read(s: Seq<u8>, i: int, n: nat, k: int)
    requires
        0 <= i,
        0 <= k < n,
        i + 4 * n <= s.len(),
    ensures
        words_at(s, i, n).len() == n,
        words_at(s, i, n)[k] == s[i + 4 * k] + 256 * s[i + 4 * k + 1] + 65_536 * s[i + 4 * k + 2]
            + 16_777_216 * s[i + 4 * k + 3],
{
}

} // verus!
