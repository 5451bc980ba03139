//! A field of bits kept in 64-bit words.
//!
//! Bit `i` is bit `i % 64` (counted from the least significant end) of word `i / 64`.
//! As bytes, every word is written big-endian, eight bytes a word.
use vstd::prelude::*;

verus! {

/// Bit `b` of word `w`, counted from the least significant end.
pub open spec fn word_bit(w: u64, b: int) -> bool {
    (w >> (b as u64)) & 1u64 == 1u64
}

/// The bits of a sequence of words, 64 a word.
pub open spec fn bits_of_words(ws: Seq<u64>) -> Seq<bool> {
    Seq::new(64 * ws.len(), |i: int| word_bit(ws[i / 64], i % 64))
}

/// Byte `k` (`0..8`) of the big-endian form of `w`.
pub open spec fn be_byte(w: u64, k: int) -> u8 {
    ((w >> ((56 - 8 * k) as u64)) & 0xffu64) as u8
}

/// The big-endian bytes of a sequence of words, eight a word.
pub open spec fn bytes_of_words(ws: Seq<u64>) -> Seq<u8> {
    Seq::new(8 * ws.len(), |i: int| be_byte(ws[i / 8], i % 8))
}

/// The word whose big-endian bytes are `b0` to `b7`.
pub open spec fn be_word(b0: u8, b1: u8, b2: u8, b3: u8, b4: u8, b5: u8, b6: u8, b7: u8) -> u64 {
    (b0 as u64) << 56u64 | (b1 as u64) << 48u64 | (b2 as u64) << 40u64 | (b3 as u64) << 32u64 | (
    b4 as u64) << 24u64 | (b5 as u64) << 16u64 | (b6 as u64) << 8u64 | (b7 as u64)
}

/// Byte `i` of `d`, or 0 past its end.
pub open spec fn padded_byte(d: Seq<u8>, i: int) -> u8 {
    if i < d.len() {
        d[i]
    } else {
        0
    }
}

/// The number of words that `n` bytes fill, the last one padded with zero bytes.
pub open spec fn words_for_bytes(n: int) -> int {
    (n + 7) / 8
}

/// Word `j` read from `d` in big-endian chunks of eight bytes, the last chunk padded
/// with zero bytes.
pub open spec fn chunk_word(d: Seq<u8>, j: int) -> u64 {
    be_word(
        padded_byte(d, 8 * j),
        padded_byte(d, 8 * j + 1),
        padded_byte(d, 8 * j + 2),
        padded_byte(d, 8 * j + 3),
        padded_byte(d, 8 * j + 4),
        padded_byte(d, 8 * j + 5),
        padded_byte(d, 8 * j + 6),
        padded_byte(d, 8 * j + 7),
    )
}

/// The words read from `d`.
pub open spec fn words_of_bytes(d: Seq<u8>) -> Seq<u64> {
    Seq::new(words_for_bytes(d.len() as int) as nat, |j: int| chunk_word(d, j))
}

/// What reading bit `index` gives: 1 when it is set, else 0 (also past the end).
pub open spec fn bit_value(bits: Seq<bool>, index: int) -> u64 {
    if 0 <= index < bits.len() && bits[index] {
        1
    } else {
        0
    }
}

/// The bits after writing `value` to bit `index`: set for 1, cleared for anything
/// else; past the end nothing changes.
pub open spec fn bits_after_set(bits: Seq<bool>, index: int, value: u64) -> Seq<bool> {
    if 0 <= index < bits.len() {
        bits.update(index, value == 1)
    } else {
        bits
    }
}

/// A read gives back what the last write to that bit wrote, and a write leaves every
/// other bit and the length as they were.
pub proof fn lemma_read_after_write(bits: Seq<bool>, i: int, v: u64, j: int)
    requires
        0 <= i,
    ensures
        bits_after_set(bits, i, v).len() == bits.len(),
        bit_value(bits_after_set(bits, i, v), i) == if i < bits.len() && v == 1 {
            1u64
        } else {
            0u64
        },
        j != i ==> bit_value(bits_after_set(bits, i, v), j) == bit_value(bits, j),
{
}

/// The largest number of words a field may hold: its number of bits fits in a `usize`.
pub open spec fn max_words() -> int {
    usize::MAX as int / 64
}

/// A field of bits, 64 to a word; the number of its bits fits in a `usize`.
pub struct BitField {
    bits: Vec<u64>,
}

impl BitField {
    #[verifier::type_invariant]
    spec fn inv(self) -> bool {
        self.bits.len() <= max_words()
    }

    /// The words of the field.
    pub closed spec fn words(self) -> Seq<u64> {
        self.bits@
    }
}

impl View for BitField {
    type V = Seq<bool>;

    open spec fn view(&self) -> Seq<bool> {
        bits_of_words(self.words())
    }
}

/// A bit read from a word is 0 or 1.
proof fn lemma_word_bit_range(w: u64, b: u64)
    requires
        b < 64,
    ensures
        (w >> b) & 1u64 == 0u64 || (w >> b) & 1u64 == 1u64,
{
    assert((w >> b) & 1u64 == 0u64 || (w >> b) & 1u64 == 1u64) by (bit_vector);
}

/// Setting or clearing bit `b` of a word changes that bit and no other.
proof fn lemma_set_word_bit(w: u64, b: u64, k: u64)
    requires
        b < 64,
        k < 64,
    ensures
        ((w | (1u64 << b)) >> k) & 1u64 == 1u64 <==> (k == b || (w >> k) & 1u64 == 1u64),
        ((w & !(1u64 << b)) >> k) & 1u64 == 1u64 <==> (k != b && (w >> k) & 1u64 == 1u64),
{
    assert(((w | (1u64 << b)) >> k) & 1u64 == 1u64 <==> (k == b || (w >> k) & 1u64 == 1u64))
        by (bit_vector)
        requires
            b < 64,
            k < 64,
    ;
    assert(((w & !(1u64 << b)) >> k) & 1u64 == 1u64 <==> (k != b && (w >> k) & 1u64 == 1u64))
        by (bit_vector)
        requires
            b < 64,
            k < 64,
    ;
}

/// Reading a word back from its own big-endian bytes gives the word.
pub proof fn lemma_be_word_of_bytes(w: u64)
    ensures
        be_word(
            be_byte(w, 0),
            be_byte(w, 1),
            be_byte(w, 2),
            be_byte(w, 3),
            be_byte(w, 4),
            be_byte(w, 5),
            be_byte(w, 6),
            be_byte(w, 7),
        ) == w,
{
    assert((((w >> 56u64) & 0xffu64) as u8 as u64) << 56u64 | (((w >> 48u64) & 0xffu64) as u8 as u64)
        << 48u64 | (((w >> 40u64) & 0xffu64) as u8 as u64) << 40u64 | (((w >> 32u64) & 0xffu64) as u8
        as u64) << 32u64 | (((w >> 24u64) & 0xffu64) as u8 as u64) << 24u64 | (((w >> 16u64)
        & 0xffu64) as u8 as u64) << 16u64 | (((w >> 8u64) & 0xffu64) as u8 as u64) << 8u64 | (((w
        >> 0u64) & 0xffu64) as u8 as u64) == w) by (bit_vector);
}

/// The big-endian bytes of a word built from bytes are those bytes.
pub proof fn lemma_be_bytes_of_word(b0: u8, b1: u8, b2: u8, b3: u8, b4: u8, b5: u8, b6: u8, b7: u8)
    ensures
        ({
            let w = be_word(b0, b1, b2, b3, b4, b5, b6, b7);
            &&& be_byte(w, 0) == b0
            &&& be_byte(w, 1) == b1
            &&& be_byte(w, 2) == b2
            &&& be_byte(w, 3) == b3
            &&& be_byte(w, 4) == b4
            &&& be_byte(w, 5) == b5
            &&& be_byte(w, 6) == b6
            &&& be_byte(w, 7) == b7
        }),
{
    let w = be_word(b0, b1, b2, b3, b4, b5, b6, b7);
    assert(w == (b0 as u64) << 56u64 | (b1 as u64) << 48u64 | (b2 as u64) << 40u64 | (b3 as u64)
        << 32u64 | (b4 as u64) << 24u64 | (b5 as u64) << 16u64 | (b6 as u64) << 8u64 | (b7 as u64));
    assert(((w >> 56u64) & 0xffu64) as u8 == b0 && ((w >> 48u64) & 0xffu64) as u8 == b1 && ((w
        >> 40u64) & 0xffu64) as u8 == b2 && ((w >> 32u64) & 0xffu64) as u8 == b3 && ((w >> 24u64)
        & 0xffu64) as u8 == b4 && ((w >> 16u64) & 0xffu64) as u8 == b5 && ((w >> 8u64) & 0xffu64)
        as u8 == b6 && ((w >> 0u64) & 0xffu64) as u8 == b7) by (bit_vector)
        requires
            w == (b0 as u64) << 56u64 | (b1 as u64) << 48u64 | (b2 as u64) << 40u64 | (b3 as u64)
                << 32u64 | (b4 as u64) << 24u64 | (b5 as u64) << 16u64 | (b6 as u64) << 8u64 | (
            b7 as u64),
    ;
}

impl BitField {
    /// A field of `num_bits` bits rounded up to whole words, all clear.
    pub fn new(num_bits: usize) -> (r: Self)
        requires
            num_bits + 63 <= usize::MAX,
        ensures
            r.words().len() == (num_bits + 63) / 64,
            r@.len() == 64 * ((num_bits + 63) / 64),
            forall|i: int| 0 <= i < r@.len() ==> !#[trigger] r@[i],
    {
        let num_u64s = (num_bits + 63) / 64;
        let mut bits: Vec<u64> = Vec::new();
        while bits.len() < num_u64s
            invariant
                bits.len() <= num_u64s,
                num_u64s == (num_bits + 63) / 64,
                forall|j: int| 0 <= j < bits.len() ==> #[trigger] bits@[j] == 0u64,
            decreases num_u64s - bits.len(),
        {
            bits.push(0);
        }
        let r = BitField { bits };
        assert forall|i: int| 0 <= i < r@.len() implies !#[trigger] r@[i] by {
            let b = (i % 64) as u64;
            assert((0u64 >> b) & 1u64 == 0u64) by (bit_vector);
        }
        r
    }

    /// The field whose big-endian words are `data`, in chunks of eight bytes, the last
    /// chunk padded with zero bytes.
    pub fn from_vec(data: Vec<u8>) -> (r: Self)
        requires
            words_for_bytes(data.len() as int) <= max_words(),
        ensures
            r.words() == words_of_bytes(data@),
    {
        let n = data.len() / 8 + if data.len() % 8 == 0 {
            0
        } else {
            1
        };
        assert(n == words_for_bytes(data.len() as int));
        let mut bits: Vec<u64> = Vec::new();
        let mut j: usize = 0;
        while j < n
            invariant
                j <= n,
                n == words_for_bytes(data.len() as int),
                n <= max_words(),
                bits@ =~= words_of_bytes(data@).take(j as int),
            decreases n - j,
        {
            let base = 8 * j;
            let b0 = byte_or_zero(&data, base);
            let b1 = byte_or_zero(&data, base + 1);
            let b2 = byte_or_zero(&data, base + 2);
            let b3 = byte_or_zero(&data, base + 3);
            let b4 = byte_or_zero(&data, base + 4);
            let b5 = byte_or_zero(&data, base + 5);
            let b6 = byte_or_zero(&data, base + 6);
            let b7 = byte_or_zero(&data, base + 7);
            let w: u64 = (b0 as u64) << 56u64 | (b1 as u64) << 48u64 | (b2 as u64) << 40u64 | (
            b3 as u64) << 32u64 | (b4 as u64) << 24u64 | (b5 as u64) << 16u64 | (b6 as u64) << 8u64
                | (b7 as u64);
            bits.push(w);
            j += 1;
        }
        BitField { bits }
    }

    /// The big-endian bytes of the words, eight a word.
    pub fn to_vec(&self) -> (r: Vec<u8>)
        ensures
            r@ == bytes_of_words(self.words()),
    {
        proof {
            use_type_invariant(self);
        }
        let mut out: Vec<u8> = Vec::new();
        let mut j: usize = 0;
        while j < self.bits.len()
            invariant
                j <= self.bits.len(),
                self.bits.len() <= max_words(),
                out@ =~= bytes_of_words(self.bits@).take(8 * j),
            decreases self.bits.len() - j,
        {
            let w = self.bits[j];
            out.push(((w >> 56u64) & 0xff) as u8);
            out.push(((w >> 48u64) & 0xff) as u8);
            out.push(((w >> 40u64) & 0xff) as u8);
            out.push(((w >> 32u64) & 0xff) as u8);
            out.push(((w >> 24u64) & 0xff) as u8);
            out.push(((w >> 16u64) & 0xff) as u8);
            out.push(((w >> 8u64) & 0xff) as u8);
            out.push((w & 0xff) as u8);
            proof {
                assert((w >> 0u64) == w) by (bit_vector);
            }
            j += 1;
        }
        out
    }

    /// 1 when bit `index` is set, else 0 (also past the end of the field).
    pub fn get_bit(&self, index: usize) -> (r: u64)
        ensures
            r == bit_value(self@, index as int),
    {
        let chunk_idx = index / 64;
        let bit_idx = index % 64;
        if chunk_idx >= self.bits.len() {
            return 0;
        }
        proof {
            lemma_word_bit_range(self.bits@[chunk_idx as int], bit_idx as u64);
        }
        (self.bits[chunk_idx] >> bit_idx) & 1
    }

    /// Sets bit `index` where `value` is 1 and clears it otherwise; past the end of the
    /// field nothing changes.
    pub fn set_bit(&mut self, index: usize, value: u64)
        ensures
            final(self).words().len() == old(self).words().len(),
            final(self)@ == bits_after_set(old(self)@, index as int, value),
    {
        let chunk_idx = index / 64;
        let bit_idx = index % 64;
        if chunk_idx >= self.bits.len() {
            return ;
        }
        proof {
            use_type_invariant(&*self);
        }
        let ghost before = self.bits@;
        let w = self.bits[chunk_idx];
        let nw = if value == 1 {
            w | (1u64 << bit_idx)
        } else {
            w & !(1u64 << bit_idx)
        };
        let mut bits: Vec<u64> = Vec::new();
        std::mem::swap(&mut bits, &mut self.bits);
        bits.set(chunk_idx, nw);
        self.bits = bits;
        proof {
            let old_view = bits_of_words(before);
            let new_view = bits_of_words(self.bits@);
            assert forall|i: int| 0 <= i < new_view.len() implies new_view[i] == old_view.update(
                index as int,
                value == 1,
            )[i] by {
                if i / 64 == chunk_idx as int {
                    lemma_set_word_bit(w, bit_idx as u64, (i % 64) as u64);
                }
            }
            assert(new_view =~= old_view.update(index as int, value == 1));
        }
    }

    /// The number of bits: 64 a word.
    pub fn len(&self) -> (r: usize)
        ensures
            r == self@.len(),
    {
        proof {
            use_type_invariant(self);
        }
        self.bits.len() * 64
    }
}

impl Clone for BitField {
    fn clone(&self) -> (r: Self)
        ensures
            r.words() == self.words(),
    {
        proof {
            use_type_invariant(self);
        }
        BitField { bits: vstd::slice::slice_to_vec(self.bits.as_slice()) }
    }
}

/// The eight big-endian bytes of `w`.
pub fn u64_be_bytes(w: u64) -> (r: Vec<u8>)
    ensures
        r@ == bytes_of_words(seq![w]),
{
    let mut out: Vec<u8> = Vec::new();
    out.push(((w >> 56u64) & 0xff) as u8);
    out.push(((w >> 48u64) & 0xff) as u8);
    out.push(((w >> 40u64) & 0xff) as u8);
    out.push(((w >> 32u64) & 0xff) as u8);
    out.push(((w >> 24u64) & 0xff) as u8);
    out.push(((w >> 16u64) & 0xff) as u8);
    out.push(((w >> 8u64) & 0xff) as u8);
    out.push((w & 0xff) as u8);
    proof {
        assert((w >> 0u64) == w) by (bit_vector);
    }
    assert(out@ =~= bytes_of_words(seq![w]));
    out
}

/// Whether a field read from `n` bytes fits, as `BitField::from_vec` requires.
pub fn bytes_fit(n: usize) -> (r: bool)
    ensures
        r == (words_for_bytes(n as int) <= max_words()),
{
    n / 8 + if n % 8 == 0 {
        0
    } else {
        1
    } <= usize::MAX / 64
}

/// Byte `i` of `data`, or 0 past its end.
fn byte_or_zero(data: &Vec<u8>, i: usize) -> (b: u8)
    ensures
        b == padded_byte(data@, i as int),
{
    if i < data.len() {
        data[i]
    } else {
        0
    }
}

/// Reading the field back from its bytes gives the same words.
pub proof fn lemma_from_to_vec(ws: Seq<u64>)
    ensures
        words_of_bytes(bytes_of_words(ws)) == ws,
{
    let bs = bytes_of_words(ws);
    assert(words_for_bytes(bs.len() as int) == ws.len());
    assert forall|j: int| 0 <= j < ws.len() implies #[trigger] words_of_bytes(bs)[j] == ws[j] by {
        lemma_be_word_of_bytes(ws[j]);
        assert forall|k: int| 0 <= k < 8 implies padded_byte(bs, 8 * j + k) == be_byte(ws[j], k) by {
            assert((8 * j + k) / 8 == j);
            assert((8 * j + k) % 8 == k);
        }
    }
    assert(words_of_bytes(bs) =~= ws);
}

/// Writing out the field read from `d` gives `d` padded with zero bytes to whole words,
/// and the field has 64 bits for each started group of eight bytes.
pub proof fn lemma_to_from_vec(d: Seq<u8>)
    ensures
        bytes_of_words(words_of_bytes(d)) == d + Seq::new(
            ((8 - d.len() % 8) % 8) as nat,
            |i: int| 0u8,
        ),
        bits_of_words(words_of_bytes(d)).len() == 64 * words_for_bytes(d.len() as int),
        bytes_of_words(words_of_bytes(d)).len() == 8 * words_for_bytes(d.len() as int),
        forall|i: int|
            0 <= i < bytes_of_words(words_of_bytes(d)).len() ==> #[trigger] bytes_of_words(
                words_of_bytes(d),
            )[i] == padded_byte(d, i),
{
    let ws = words_of_bytes(d);
    assert forall|i: int| 0 <= i < bytes_of_words(ws).len() implies #[trigger] bytes_of_words(
        ws,
    )[i] == padded_byte(d, i) by {
        let j = i / 8;
        let k = i % 8;
        assert(i == 8 * j + k);
        lemma_be_bytes_of_word(
            padded_byte(d, 8 * j),
            padded_byte(d, 8 * j + 1),
            padded_byte(d, 8 * j + 2),
            padded_byte(d, 8 * j + 3),
            padded_byte(d, 8 * j + 4),
            padded_byte(d, 8 * j + 5),
            padded_byte(d, 8 * j + 6),
            padded_byte(d, 8 * j + 7),
        );
    }
    let n = d.len() as int;
    let pad = Seq::new(((8 - n % 8) % 8) as nat, |i: int| 0u8);
    assert(8 * ((n + 7) / 8) == n + (8 - n % 8) % 8) by (nonlinear_arith)
        requires
            n >= 0,
    ;
    assert(bytes_of_words(ws) =~= d + pad) by {
        assert forall|i: int| 0 <= i < bytes_of_words(ws).len() implies #[trigger] bytes_of_words(
            ws,
        )[i] == (d + pad)[i] by {
            assert(bytes_of_words(ws)[i] == padded_byte(d, i));
        }
    }
}

/// The number that bytes spell in base 256, most significant first.
pub open spec fn be_number(s: Seq<u8>) -> nat
    decreases s.len(),
{
    if s.len() == 0 {
        0
    } else {
        be_number(s.drop_last()) * 256 + s.last() as nat
    }
}

/// Bit `k` of a word built from big-endian bytes is bit `k % 8` of byte `7 - k / 8`.
proof fn lemma_be_word_bit(
    b0: u8,
    b1: u8,
    b2: u8,
    b3: u8,
    b4: u8,
    b5: u8,
    b6: u8,
    b7: u8,
    k: u64,
    sel: u8,
)
    requires
        k < 64,
        sel == if k < 8 {
            b7
        } else if k < 16 {
            b6
        } else if k < 24 {
            b5
        } else if k < 32 {
            b4
        } else if k < 40 {
            b3
        } else if k < 48 {
            b2
        } else if k < 56 {
            b1
        } else {
            b0
        },
    ensures
        word_bit(be_word(b0, b1, b2, b3, b4, b5, b6, b7), k as int) == ((sel >> ((k % 8) as u8))
            & 1u8 == 1u8),
{
    let w = be_word(b0, b1, b2, b3, b4, b5, b6, b7);
    assert(((w >> k) & 1u64 == 1u64) == ((sel >> ((k % 8) as u8)) & 1u8 == 1u8)) by (bit_vector)
        requires
            w == (b0 as u64) << 56u64 | (b1 as u64) << 48u64 | (b2 as u64) << 40u64 | (b3 as u64)
                << 32u64 | (b4 as u64) << 24u64 | (b5 as u64) << 16u64 | (b6 as u64) << 8u64 | (
            b7 as u64),
            k < 64,
            sel == if k < 8 {
                b7
            } else if k < 16 {
                b6
            } else if k < 24 {
                b5
            } else if k < 32 {
                b4
            } else if k < 40 {
                b3
            } else if k < 48 {
                b2
            } else if k < 56 {
                b1
            } else {
                b0
            },
    ;
}

/// Where a bit of a field read from bytes lives: bit `i` is in word `i / 64` counted
/// from the start, that is in the eight bytes from `8 * (i / 64)`, which hold the word
/// big-endian; so it is bit `i % 8` of byte `8 * (i / 64) + 7 - (i % 64) / 8` (bytes past
/// the end of `d` count as zero).
pub proof fn lemma_from_vec_bit(d: Seq<u8>, i: int)
    requires
        0 <= i < 64 * words_for_bytes(d.len() as int),
    ensures
        bits_of_words(words_of_bytes(d)).len() == 64 * words_for_bytes(d.len() as int),
        bits_of_words(words_of_bytes(d))[i] == ((padded_byte(d, 8 * (i / 64) + 7 - (i % 64) / 8)
            >> ((i % 8) as u8)) & 1u8 == 1u8),
{
    let ws = words_of_bytes(d);
    let j = i / 64;
    let k = i % 64;
    assert(0 <= j < words_for_bytes(d.len() as int)) by (nonlinear_arith)
        requires
            0 <= i < 64 * words_for_bytes(d.len() as int),
            j == i / 64,
    ;
    assert(ws[j] == chunk_word(d, j));
    assert(k % 8 == i % 8);
    let sel = padded_byte(d, 8 * j + 7 - k / 8);
    lemma_be_word_bit(
        padded_byte(d, 8 * j),
        padded_byte(d, 8 * j + 1),
        padded_byte(d, 8 * j + 2),
        padded_byte(d, 8 * j + 3),
        padded_byte(d, 8 * j + 4),
        padded_byte(d, 8 * j + 5),
        padded_byte(d, 8 * j + 6),
        padded_byte(d, 8 * j + 7),
        k as u64,
        sel,
    );
}

/// Eight big-endian bytes of a word spell the word.
pub proof fn lemma_word_bytes_number(w: u64)
    ensures
        bytes_of_words(seq![w]).len() == 8,
        be_number(bytes_of_words(seq![w])) == w,
{
    let s = bytes_of_words(seq![w]);
    assert forall|k: int| 0 <= k < 8 implies #[trigger] s[k] == be_byte(w, k) by {
        assert(k / 8 == 0 && k % 8 == k);
    }
    let b0 = be_byte(w, 0) as u64;
    let b1 = be_byte(w, 1) as u64;
    let b2 = be_byte(w, 2) as u64;
    let b3 = be_byte(w, 3) as u64;
    let b4 = be_byte(w, 4) as u64;
    let b5 = be_byte(w, 5) as u64;
    let b6 = be_byte(w, 6) as u64;
    let b7 = be_byte(w, 7) as u64;
    assert(s.take(1).drop_last() =~= s.take(0));
    assert(s.take(2).drop_last() =~= s.take(1));
    assert(s.take(3).drop_last() =~= s.take(2));
    assert(s.take(4).drop_last() =~= s.take(3));
    assert(s.take(5).drop_last() =~= s.take(4));
    assert(s.take(6).drop_last() =~= s.take(5));
    assert(s.take(7).drop_last() =~= s.take(6));
    assert(s.drop_last() =~= s.take(7));
    assert(be_number(s.take(0)) == 0);
    assert(be_number(s.take(1)) == b0);
    assert(be_number(s.take(2)) == b0 * 256 + b1);
    assert(be_number(s.take(3)) == (b0 * 256 + b1) * 256 + b2);
    assert(be_number(s.take(4)) == ((b0 * 256 + b1) * 256 + b2) * 256 + b3);
    assert(be_number(s.take(5)) == (((b0 * 256 + b1) * 256 + b2) * 256 + b3) * 256 + b4);
    assert(be_number(s.take(6)) == ((((b0 * 256 + b1) * 256 + b2) * 256 + b3) * 256 + b4) * 256
        + b5);
    assert(be_number(s.take(7)) == (((((b0 * 256 + b1) * 256 + b2) * 256 + b3) * 256 + b4) * 256
        + b5) * 256 + b6);
    assert(be_number(s) == ((((((b0 * 256 + b1) * 256 + b2) * 256 + b3) * 256 + b4) * 256 + b5)
        * 256 + b6) * 256 + b7);
    assert(((((((((((w >> 56u64) & 0xffu64) as u8 as u64) * 256 + (((w >> 48u64) & 0xffu64) as u8
        as u64)) * 256 + (((w >> 40u64) & 0xffu64) as u8 as u64)) * 256 + (((w >> 32u64)
        & 0xffu64) as u8 as u64)) * 256 + (((w >> 24u64) & 0xffu64) as u8 as u64)) * 256 + (((w
        >> 16u64) & 0xffu64) as u8 as u64)) * 256 + (((w >> 8u64) & 0xffu64) as u8 as u64)) * 256
        + (((w >> 0u64) & 0xffu64) as u8 as u64)) == w) by (bit_vector);
}

} // verus!
