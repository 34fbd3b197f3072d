//! DEFLATE (RFC 1951): unpacking the compressed entries a real Cameo container holds.
//!
//! The decoder is specified bit by bit: `spec_inflate` is the meaning of a raw DEFLATE stream
//! as the RFC defines it (blocks, canonical Huffman codes, back-references), and every
//! executable step below is proved to compute exactly that meaning, refusals included.

use vstd::prelude::*;
use vstd::arithmetic::div_mod::*;
use crate::text::{decimal, decimal_string, text};

verus! {

/// Why a DEFLATE stream was refused.
#[derive(Debug, Clone, Copy, PartialEq, Eq)]
pub enum InflateError {
    /// The stream ended in the middle of a code.
    Truncated,
    /// A code that no entry of the Huffman table names.
    UnknownCode,
    /// A dynamic header declaring more literal or distance codes than the format allows.
    TooManyCodes,
    /// A length repeat (symbol 16) with no previous length to repeat.
    NothingToRepeat,
    /// A length repeat that runs past the list of code lengths.
    RepeatOverrun,
    /// A code-length symbol outside 0..=18.
    BadCodeLengthSymbol,
    /// A length symbol outside 257..=285.
    BadLengthCode,
    /// A distance symbol outside 0..=29.
    BadDistanceCode,
    /// A back-reference to before the start of the output.
    BeforeStart,
    /// The output grew past the limit while a Huffman block was decoded.
    PastLimit(usize),
    /// A stored block whose length and its complement disagree.
    BrokenStoredLength,
    /// The output grew past the declared size between blocks.
    PastDeclared,
    /// Block type 3, which the format reserves.
    BadBlockType,
    /// The stream ended with a different size than declared: (produced, declared).
    SizeMismatch(usize, usize),
}

// ---------------------------------------------------------------------------
// The bit stream.

/// Bit `pos` of the stream, counting least-significant bit first within each byte.
pub open spec fn bit_at(data: Seq<u8>, pos: int) -> u32 {
    ((data[pos / 8] >> ((pos % 8) as u8)) & 1u8) as u32
}

/// The value of `count` bits starting at `pos`, the first bit being the least significant.
pub open spec fn bits_val(data: Seq<u8>, pos: int, count: nat) -> int
    decreases count,
{
    if count == 0 {
        0
    } else {
        bit_at(data, pos) + 2 * bits_val(data, pos + 1, (count - 1) as nat)
    }
}

/// Reading `count` bits at `pos`: their value and the position after them, or a refusal when
/// the stream holds fewer bits.
pub open spec fn read_bits(data: Seq<u8>, pos: int, count: nat) -> Result<(int, int), InflateError> {
    if pos + count <= data.len() * 8 {
        Ok((bits_val(data, pos, count), pos + count))
    } else {
        Err(InflateError::Truncated)
    }
}

proof fn lemma_pos_split(byte: int, bit: int)
    requires
        0 <= byte,
        0 <= bit < 8,
    ensures
        (byte * 8 + bit) / 8 == byte,
        (byte * 8 + bit) % 8 == bit,
{
    lemma_fundamental_div_mod_converse(byte * 8 + bit, 8, byte, bit);
}

proof fn lemma_bit_le_one(x: u8, s: u8)
    ensures
        (x >> s) & 1u8 <= 1u8,
{
    assert((x >> s) & 1u8 <= 1u8) by (bit_vector);
}

pub proof fn lemma_bits_val_bound(data: Seq<u8>, pos: int, count: nat)
    ensures
        0 <= bits_val(data, pos, count) < vstd::arithmetic::power2::pow2(count),
    decreases count,
{
    if count > 0 {
        lemma_bits_val_bound(data, pos + 1, (count - 1) as nat);
        let x = data[pos / 8];
        let s = (pos % 8) as u8;
        lemma_bit_le_one(x, s);
        vstd::arithmetic::power2::lemma_pow2_unfold(count);
    } else {
        vstd::arithmetic::power2::lemma2_to64();
    }
}

/// Appending one bit at the top: the value of `count + 1` bits.
proof fn lemma_bits_val_snoc(data: Seq<u8>, pos: int, count: nat)
    ensures
        bits_val(data, pos, count + 1) == bits_val(data, pos, count) + bit_at(data, pos + count)
            * vstd::arithmetic::power2::pow2(count),
    decreases count,
{
    let c1 = (count + 1) as nat;
    assert(bits_val(data, pos, c1) == bit_at(data, pos) + 2 * bits_val(data, pos + 1, count));
    if count == 0 {
        vstd::arithmetic::power2::lemma2_to64();
        assert(bits_val(data, pos + 1, 0) == 0);
        assert(bits_val(data, pos, 0) == 0);
        assert(bit_at(data, pos) * 1 == bit_at(data, pos));
    } else {
        let c0 = (count - 1) as nat;
        lemma_bits_val_snoc(data, pos + 1, c0);
        vstd::arithmetic::power2::lemma_pow2_unfold(count);
        assert(c0 + 1 == count);
        assert(pos + 1 + c0 == pos + count);
        assert(bits_val(data, pos, count) == bit_at(data, pos) + 2 * bits_val(data, pos + 1, c0));
        let b = bit_at(data, pos + count) as int;
        let p = vstd::arithmetic::power2::pow2(c0) as int;
        assert(2 * (b * p) == b * (2 * p)) by (nonlinear_arith);
    }
}

/// A reader of the DEFLATE bit stream. Bits arrive least-significant-bit first, which is the
/// format's own convention and the opposite of how the bytes are written down.
pub struct BitReader<'a> {
    data: &'a [u8],
    byte: usize,
    bit: u32,
}

impl<'a> BitReader<'a> {
    /// The stream being read.
    pub closed spec fn stream(&self) -> Seq<u8> {
        self.data@
    }

    /// The position of the next bit.
    pub closed spec fn pos(&self) -> int {
        self.byte * 8 + self.bit
    }

    pub closed spec fn wf(&self) -> bool {
        &&& self.bit < 8
        &&& self.byte <= self.data@.len()
        &&& self.pos() <= self.data@.len() * 8
    }

    pub fn new(data: &'a [u8]) -> (r: Self)
        ensures
            r.wf(),
            r.stream() == data@,
            r.pos() == 0,
    {
        BitReader { data, byte: 0, bit: 0 }
    }

    /// One bit, least-significant first.
    pub fn bit(&mut self) -> (r: Result<u32, InflateError>)
        requires
            old(self).wf(),
        ensures
            final(self).wf(),
            final(self).stream() == old(self).stream(),
            match read_bits(old(self).stream(), old(self).pos(), 1) {
                Ok((v, p)) => r == Ok::<u32, InflateError>(v as u32) && 0 <= v <= 1 && final(self).pos() == p,
                Err(e) => r == Err::<u32, InflateError>(e),
            },
    {
        proof {
            lemma_pos_split(self.byte as int, self.bit as int);
        }
        if self.byte >= self.data.len() {
            return Err(InflateError::Truncated);
        }
        let value = ((self.data[self.byte] >> (self.bit as u8)) & 1u8) as u32;
        proof {
            lemma_bit_le_one(self.data@[self.byte as int], self.bit as u8);
            assert(bits_val(self.data@, self.pos() + 1, 0) == 0);
            assert(bits_val(self.data@, self.pos(), 1) == bit_at(self.data@, self.pos()) + 2 * bits_val(self.data@, self.pos() + 1, 0));
            assert(value == bits_val(self.data@, self.pos(), 1));
            assert(0 <= value <= 1);
        }
        self.bit = self.bit + 1;
        if self.bit == 8 {
            self.bit = 0;
            self.byte = self.byte + 1;
        }
        Ok(value)
    }

    /// `count` bits, least-significant first, assembled into an integer.
    pub fn bits(&mut self, count: u32) -> (r: Result<u32, InflateError>)
        requires
            old(self).wf(),
            count <= 16,
        ensures
            final(self).wf(),
            final(self).stream() == old(self).stream(),
            match read_bits(old(self).stream(), old(self).pos(), count as nat) {
                Ok((v, p)) => r == Ok::<u32, InflateError>(v as u32) && 0 <= v <= 0xFFFF && v
                    < vstd::arithmetic::power2::pow2(count as nat) && final(self).pos() == p,
                Err(e) => r is Err && r == Err::<u32, InflateError>(e),
            },
    {
        let ghost start = self.pos();
        let ghost data = self.data@;
        let mut value = 0u32;
        let mut position = 0u32;
        proof {
            vstd::arithmetic::power2::lemma2_to64();
        }
        while position < count
            invariant
                self.wf(),
                self.stream() == data,
                data == old(self).stream(),
                start == old(self).pos(),
                position <= count <= 16,
                self.pos() == start + position,
                start + position <= data.len() * 8,
                value == bits_val(data, start, position as nat),
                value < vstd::arithmetic::power2::pow2(position as nat),
            decreases count - position,
        {
            let b = match self.bit() {
                Ok(b) => b,
                Err(e) => {
                    return Err(e);
                },
            };
            proof {
                lemma_bits_val_snoc(data, start, position as nat);
                vstd::arithmetic::power2::lemma_pow2_unfold((position + 1) as nat);
                vstd::arithmetic::power2::lemma2_to64();
                lemma_bits_val_bound(data, start + position, 1);
                assert(b <= 1);
            }
            let ghost old_value = value;
            let shifted = b << position;
            proof {
                vstd::arithmetic::power2::lemma_pow2_strictly_increases(position as nat, 16);
                vstd::bits::lemma_u32_shl_is_mul(1u32, position);
                let p2 = vstd::arithmetic::power2::pow2(position as nat);
                assert((1u32 << position) == p2);
                assert(b <= 1 && position < 16 ==> b << position == b * (1u32 << position)) by (bit_vector);
                assert(old_value < (1u32 << position) && b <= 1 && position < 16 ==> old_value | (b << position) == old_value + b * (1u32 << position)) by (bit_vector);
                assert(bits_val(data, start + position + 1, 0) == 0);
                assert(bits_val(data, start + position, 1) == bit_at(data, start + position) + 2 * bits_val(data, start + position + 1, 0));
                assert(b == bit_at(data, start + position));
                assert((old_value | shifted) == old_value + b * p2);
                assert(bits_val(data, start, (position + 1) as nat) == old_value + b * p2);
                assert(b * p2 <= p2) by (nonlinear_arith) requires b <= 1, p2 >= 0;
            }
            value = value | shifted;
            position = position + 1;
        }
        proof {
            lemma_bits_val_bound(data, start, count as nat);
            vstd::arithmetic::power2::lemma2_to64();
            if count < 16 {
                vstd::arithmetic::power2::lemma_pow2_strictly_increases(count as nat, 16);
            }
        }
        Ok(value)
    }

    /// Skip to the next byte boundary, which a stored block requires.
    pub fn align(&mut self)
        requires
            old(self).wf(),
        ensures
            final(self).wf(),
            final(self).stream() == old(self).stream(),
            final(self).pos() == align_up(old(self).pos()),
    {
        proof {
            lemma_pos_split(self.byte as int, self.bit as int);
        }
        if self.bit != 0 {
            assert(self.data@.len() == self.data.len());
            assert(self.byte < self.data@.len());
            self.bit = 0;
            self.byte = self.byte + 1;
        }
    }
}

/// The next byte boundary at or after `pos`.
pub open spec fn align_up(pos: int) -> int {
    if pos % 8 == 0 {
        pos
    } else {
        (pos / 8 + 1) * 8
    }
}


// ---------------------------------------------------------------------------
// Canonical Huffman codes (RFC 1951 section 3.2.2).

/// The symbols whose code length is `len`, in increasing order: the order in which the
/// canonical code hands them consecutive code values.
pub open spec fn syms_of_len(lengths: Seq<u8>, len: int) -> Seq<u16>
    decreases lengths.len(),
{
    if lengths.len() == 0 {
        Seq::empty()
    } else {
        let rest = syms_of_len(lengths.drop_last(), len);
        if lengths.last() == len {
            rest.push((lengths.len() - 1) as u16)
        } else {
            rest
        }
    }
}

/// How many symbols have code length `len`.
pub open spec fn count_of_len(lengths: Seq<u8>, len: int) -> int {
    syms_of_len(lengths, len).len() as int
}

/// How many symbols have a code length in 1..len: the position of the first length-`len`
/// symbol in canonical order.
pub open spec fn codes_before(lengths: Seq<u8>, len: int) -> int
    decreases len,
{
    if len <= 1 {
        0
    } else {
        codes_before(lengths, len - 1) + count_of_len(lengths, len - 1)
    }
}

/// Decoding one symbol: after `len - 1` bits the code read so far is `code` and the first
/// canonical code of length `len` is `first`. Each step reads one more bit and either finds
/// the code inside the range of length-`len` codes or moves on to the next length.
pub open spec fn decode_from(
    lengths: Seq<u8>,
    data: Seq<u8>,
    pos: int,
    len: int,
    code: int,
    first: int,
) -> Result<(u16, int), InflateError>
    decreases 16 - len,
{
    if len >= 16 || len < 1 {
        Err(InflateError::UnknownCode)
    } else if pos + 1 > data.len() * 8 {
        Err(InflateError::Truncated)
    } else {
        let c = code + bit_at(data, pos);
        let n = count_of_len(lengths, len);
        if c >= first && c - first < n {
            Ok((syms_of_len(lengths, len)[c - first], pos + 1))
        } else {
            decode_from(lengths, data, pos + 1, len + 1, 2 * c, 2 * (first + n))
        }
    }
}

/// The symbol the canonical Huffman code with these code lengths reads at `pos`, and the
/// position after its code.
pub open spec fn huff_decode(lengths: Seq<u8>, data: Seq<u8>, pos: int) -> Result<(u16, int), InflateError> {
    decode_from(lengths, data, pos, 1, 0, 0)
}

/// Code lengths a table can be built from: each below 16, and no more than the format uses.
pub open spec fn valid_lengths(lengths: Seq<u8>) -> bool {
    &&& lengths.len() <= 320
    &&& forall|i: int| 0 <= i < lengths.len() ==> #[trigger] lengths[i] < 16
}

proof fn lemma_syms_take_step(lengths: Seq<u8>, s: int, len: int)
    requires
        0 <= s < lengths.len(),
    ensures
        syms_of_len(lengths.take(s + 1), len) == if lengths[s] == len {
            syms_of_len(lengths.take(s), len).push(s as u16)
        } else {
            syms_of_len(lengths.take(s), len)
        },
{
    assert(lengths.take(s + 1).drop_last() =~= lengths.take(s));
}

proof fn lemma_syms_values(lengths: Seq<u8>, len: int, k: int)
    requires
        0 <= k < syms_of_len(lengths, len).len(),
        lengths.len() <= 320,
    ensures
        syms_of_len(lengths, len)[k] < lengths.len(),
        lengths[syms_of_len(lengths, len)[k] as int] == len,
    decreases lengths.len(),
{
    let rest = syms_of_len(lengths.drop_last(), len);
    if k < rest.len() {
        lemma_syms_values(lengths.drop_last(), len, k);
    }
}

proof fn lemma_count_prefix_le(lengths: Seq<u8>, s: int, len: int)
    requires
        0 <= s <= lengths.len(),
    ensures
        count_of_len(lengths.take(s), len) <= count_of_len(lengths, len),
    decreases lengths.len() - s,
{
    if s < lengths.len() {
        lemma_syms_take_step(lengths, s, len);
        lemma_count_prefix_le(lengths, s + 1, len);
    } else {
        assert(lengths.take(s) =~= lengths);
    }
}

proof fn lemma_codes_before_nonneg(lengths: Seq<u8>, len: int)
    ensures
        codes_before(lengths, len) >= 0,
    decreases len,
{
    if len > 1 {
        lemma_codes_before_nonneg(lengths, len - 1);
    }
}

proof fn lemma_codes_before_mono(lengths: Seq<u8>, a: int, b: int)
    requires
        1 <= a < b,
    ensures
        codes_before(lengths, a) + count_of_len(lengths, a) <= codes_before(lengths, b),
    decreases b - a,
{
    if b > a + 1 {
        lemma_codes_before_mono(lengths, a, b - 1);
    }
}

/// Every symbol is counted once: the codes of lengths 1..16 and the uncoded symbols make up
/// the whole alphabet.
proof fn lemma_codes_total(lengths: Seq<u8>, len: int)
    requires
        1 <= len <= 16,
        lengths.len() > 0,
    ensures
        codes_before(lengths, len) == codes_before(lengths.drop_last(), len) + if 1 <= lengths.last() < len {
            1int
        } else {
            0int
        },
    decreases len,
{
    if len > 1 {
        lemma_codes_total(lengths, len - 1);
        assert(syms_of_len(lengths, len - 1) == if lengths.last() == len - 1 {
            syms_of_len(lengths.drop_last(), len - 1).push((lengths.len() - 1) as u16)
        } else {
            syms_of_len(lengths.drop_last(), len - 1)
        });
    }
}

proof fn lemma_codes_bound(lengths: Seq<u8>)
    ensures
        codes_before(lengths, 16) <= lengths.len(),
    decreases lengths.len(),
{
    if lengths.len() > 0 {
        lemma_codes_total(lengths, 16);
        lemma_codes_bound(lengths.drop_last());
    } else {
        lemma_codes_zero(lengths, 16);
    }
}

proof fn lemma_codes_zero(lengths: Seq<u8>, len: int)
    requires
        lengths.len() == 0,
    ensures
        codes_before(lengths, len) == 0,
    decreases len,
{
    if len > 1 {
        lemma_codes_zero(lengths, len - 1);
    }
}

/// A canonical Huffman decoding table: how many codes exist at each length, and the symbols in
/// canonical order, exactly as RFC 1951 section 3.2.2 builds them.
pub struct Huffman {
    counts: Vec<u32>,
    symbols: Vec<u16>,
    lengths: Ghost<Seq<u8>>,
}

impl Huffman {
    /// The code lengths the table was built from: the table's meaning.
    pub closed spec fn code_lengths(&self) -> Seq<u8> {
        self.lengths@
    }

    pub closed spec fn wf(&self) -> bool {
        let lengths = self.lengths@;
        &&& valid_lengths(lengths)
        &&& self.counts@.len() == 16
        &&& forall|len: int| 1 <= len < 16 ==> #[trigger] self.counts@[len] == count_of_len(lengths, len)
        &&& self.symbols@.len() == codes_before(lengths, 16)
        &&& forall|len: int, k: int|
            1 <= len < 16 && 0 <= k < count_of_len(lengths, len) ==> self.symbols@[codes_before(
                lengths,
                len,
            ) + k] == #[trigger] syms_of_len(lengths, len)[k]
    }

    /// Build the table from a list of code lengths, one per symbol. A length of zero means the
    /// symbol is not coded, which is normal and not an error.
    pub fn new(lengths: &[u8]) -> (h: Self)
        requires
            valid_lengths(lengths@),
        ensures
            h.wf(),
            h.code_lengths() == lengths@,
    {
        let ghost ls = lengths@;
        let mut counts: Vec<u32> = vec![0u32; 16];
        let mut i: usize = 0;
        while i < lengths.len()
            invariant
                ls == lengths@,
                valid_lengths(ls),
                i <= lengths.len(),
                counts@.len() == 16,
                forall|len: int| 0 <= len < 16 ==> #[trigger] counts@[len] == count_of_len(ls.take(i as int), len),
            decreases lengths.len() - i,
        {
            let length = lengths[i];
            proof {
                assert(ls[i as int] < 16);
                assert forall|len: int| 0 <= len < 16 implies count_of_len(ls.take(i as int), len) <= i by {
                    lemma_count_take_le(ls, i as int, len);
                }
                assert forall|len: int| 0 <= len < 16 implies #[trigger] count_of_len(ls.take(i + 1), len) == count_of_len(ls.take(i as int), len) + if ls[i as int] == len { 1int } else { 0int } by {
                    lemma_syms_take_step(ls, i as int, len);
                }
            }
            let c = counts[length as usize];
            counts.set(length as usize, c + 1);
            i = i + 1;
        }
        proof {
            assert(ls.take(lengths.len() as int) =~= ls);
        }
        counts.set(0, 0);
        let mut offsets: Vec<u32> = vec![0u32; 16];
        let mut total: u32 = 0;
        let mut length: usize = 1;
        proof {
            lemma_codes_bound(ls);
        }
        while length < 16
            invariant
                valid_lengths(ls),
                1 <= length <= 16,
                counts@.len() == 16,
                offsets@.len() == 16,
                forall|len: int| 1 <= len < 16 ==> #[trigger] counts@[len] == count_of_len(ls, len),
                forall|len: int| 1 <= len < length ==> #[trigger] offsets@[len] == codes_before(ls, len),
                total == codes_before(ls, length as int),
                codes_before(ls, 16) <= ls.len(),
            decreases 16 - length,
        {
            proof {
                lemma_codes_before_mono(ls, length as int, 16);
            }
            offsets.set(length, total);
            total = total + counts[length];
            length = length + 1;
        }
        let mut symbols: Vec<u16> = vec![0u16; total as usize];
        let mut symbol: usize = 0;
        while symbol < lengths.len()
            invariant
                ls == lengths@,
                valid_lengths(ls),
                symbol <= lengths.len(),
                counts@.len() == 16,
                offsets@.len() == 16,
                symbols@.len() == total,
                total == codes_before(ls, 16),
                forall|len: int| 1 <= len < 16 ==> #[trigger] counts@[len] == count_of_len(ls, len),
                forall|len: int| 1 <= len < 16 ==> #[trigger] offsets@[len] == codes_before(ls, len)
                    + count_of_len(ls.take(symbol as int), len),
                forall|len: int, k: int|
                    1 <= len < 16 && 0 <= k < count_of_len(ls.take(symbol as int), len)
                        ==> symbols@[codes_before(ls, len) + k] == #[trigger] syms_of_len(
                        ls.take(symbol as int),
                        len,
                    )[k],
            decreases lengths.len() - symbol,
        {
            let length = lengths[symbol];
            proof {
                assert(ls[symbol as int] < 16);
                assert forall|len: int| 1 <= len < 16 implies #[trigger] syms_of_len(ls.take(symbol + 1), len) == if ls[symbol as int] == len {
                    syms_of_len(ls.take(symbol as int), len).push(symbol as u16)
                } else {
                    syms_of_len(ls.take(symbol as int), len)
                } by {
                    lemma_syms_take_step(ls, symbol as int, len);
                }
            }
            if length != 0 {
                let l = length as usize;
                let at = offsets[l];
                proof {
                    lemma_syms_take_step(ls, symbol as int, l as int);
                    lemma_count_prefix_le(ls, symbol + 1, l as int);
                    if l < 15 {
                        lemma_codes_before_mono(ls, l as int, l as int + 1);
                    }
                    lemma_codes_before_mono(ls, l as int, 16);
                    assert forall|len: int, k: int|
                        1 <= len < 16 && len != l && 0 <= k < count_of_len(ls.take(symbol as int), len)
                        implies #[trigger] syms_of_len(ls.take(symbol as int), len)[k] == syms_of_len(ls.take(symbol as int), len)[k] && codes_before(ls, len) + k != at by {
                        lemma_count_prefix_le(ls, symbol as int, len);
                        if len < l {
                            lemma_codes_before_mono(ls, len, l as int);
                        } else {
                            lemma_codes_before_mono(ls, l as int, len);
                        }
                    }
                }
                let ghost old_symbols = symbols@;
                symbols.set(at as usize, symbol as u16);
                offsets.set(l, at + 1);
                proof {
                    assert forall|len: int, k: int|
                        1 <= len < 16 && 0 <= k < count_of_len(ls.take(symbol + 1), len)
                        implies symbols@[codes_before(ls, len) + k] == #[trigger] syms_of_len(ls.take(symbol + 1), len)[k] by {
                        lemma_syms_take_step(ls, symbol as int, len);
                        lemma_codes_before_nonneg(ls, len);
                        lemma_count_prefix_le(ls, symbol as int, len);
                        lemma_count_prefix_le(ls, symbol + 1, len);
                        if len < 15 {
                            lemma_codes_before_mono(ls, len, 16);
                        }
                        assert(codes_before(ls, 16) == codes_before(ls, 15) + count_of_len(ls, 15));
                        assert(codes_before(ls, len) + k < codes_before(ls, 16));
                        assert(symbols@ == old_symbols.update(at as int, symbol as u16));
                        if len != l {
                            assert(syms_of_len(ls.take(symbol + 1), len) == syms_of_len(ls.take(symbol as int), len));
                            assert(k < count_of_len(ls.take(symbol as int), len));
                            lemma_count_prefix_le(ls, symbol + 1, l as int);
                            lemma_syms_take_step(ls, symbol as int, l as int);
                            if len < l {
                                lemma_codes_before_mono(ls, len, l as int);
                            } else {
                                lemma_codes_before_mono(ls, l as int, len);
                            }
                            assert(codes_before(ls, len) + k != at);
                            assert(old_symbols[codes_before(ls, len) + k] == syms_of_len(ls.take(symbol as int), len)[k]);
                        } else if k < count_of_len(ls.take(symbol as int), len) {
                            assert(old_symbols[codes_before(ls, len) + k] == syms_of_len(ls.take(symbol as int), len)[k]);
                            assert(codes_before(ls, len) + k != at);
                        } else {
                            assert(codes_before(ls, len) + k == at);
                            assert(syms_of_len(ls.take(symbol + 1), len)[k] == symbol as u16);
                        }
                    }
                }
            }
            symbol = symbol + 1;
        }
        proof {
            assert(ls.take(lengths.len() as int) =~= ls);
        }
        Huffman { counts, symbols, lengths: Ghost(ls) }
    }
}

impl Huffman {
    /// Decode one symbol, one bit at a time. This is the simple canonical decode of RFC 1951:
    /// walk the lengths in order, and the first length whose code range contains the bits read
    /// so far names the symbol.
    pub fn decode(&self, reader: &mut BitReader<'_>) -> (r: Result<u16, InflateError>)
        requires
            self.wf(),
            old(reader).wf(),
        ensures
            final(reader).wf(),
            final(reader).stream() == old(reader).stream(),
            match huff_decode(self.code_lengths(), old(reader).stream(), old(reader).pos()) {
                Ok((sym, p)) => r == Ok::<u16, InflateError>(sym) && final(reader).pos() == p,
                Err(e) => r == Err::<u16, InflateError>(e),
            },
    {
        let ghost ls = self.lengths@;
        let ghost data = reader.stream();
        let ghost start = reader.pos();
        let mut code: u32 = 0;
        let mut first: u32 = 0;
        let mut index: u32 = 0;
        let mut length: usize = 1;
        let ghost mut p: int = 2;
        proof {
            vstd::arithmetic::power2::lemma2_to64();
            lemma_codes_bound(ls);
        }
        while length < 16
            invariant
                self.wf(),
                ls == self.lengths@,
                reader.wf(),
                reader.stream() == data,
                data == old(reader).stream(),
                start == old(reader).pos(),
                1 <= length <= 16,
                p == vstd::arithmetic::power2::pow2(length as nat),
                huff_decode(ls, data, start) == decode_from(ls, data, reader.pos(), length as int, code as int, first as int),
                index == codes_before(ls, length as int),
                codes_before(ls, 16) <= 320,
                code % 2 == 0,
                code < p,
                first <= p * index,
            decreases 16 - length,
        {
            let ghost pos0 = reader.pos();
            let ghost code0 = code;
            proof {
                vstd::arithmetic::power2::lemma2_to64();
                vstd::arithmetic::power2::lemma_pow2_strictly_increases(length as nat, 16);
                vstd::arithmetic::power2::lemma_pow2_unfold((length + 1) as nat);
                lemma_codes_before_mono(ls, length as int, 16);
                lemma_codes_before_nonneg(ls, length as int);
                assert(first <= 65536 * 320) by (nonlinear_arith)
                    requires first <= p * index, p <= 65536, index <= 320, 0 <= index;
            }
            let b = match reader.bit() {
                Ok(b) => b,
                Err(e) => {
                    return Err(e);
                },
            };
            proof {
                lemma_bits_val_bound(data, reader.pos() - 1, 1);
                assert(bits_val(data, reader.pos(), 0) == 0);
                assert(b == bit_at(data, reader.pos() - 1));
                assert(code % 2 == 0 && b <= 1 ==> code | b == code + b) by (bit_vector);
            }
            code = code | b;
            let count = self.counts[length];
            proof {
                assert(reader.pos() == pos0 + 1);
                assert(decode_from(ls, data, pos0, length as int, code0 as int, first as int) == if code >= first && code - first < count {
                    Ok::<(u16, int), InflateError>((syms_of_len(ls, length as int)[code - first], pos0 + 1))
                } else {
                    decode_from(ls, data, pos0 + 1, length + 1, 2 * code, 2 * (first + count))
                });
            }
            if code >= first && code - first < count {
                proof {
                    lemma_syms_values(ls, length as int, (code - first) as int);
                    assert(self.symbols@[codes_before(ls, length as int) + (code - first)] == syms_of_len(ls, length as int)[(code - first) as int]);
                }
                return Ok(self.symbols[(index + (code - first)) as usize]);
            }
            proof {
                assert(2 * (first + count) <= 2 * p * (index + count)) by (nonlinear_arith)
                    requires first <= p * index, p >= 1, count >= 0;
            }
            index = index + count;
            let sum = first + count;
            proof {
                assert(sum < 0x8000_0000 ==> sum << 1 == 2 * sum) by (bit_vector);
                assert(code < 0x8000_0000 ==> code << 1 == 2 * code) by (bit_vector);
                assert((2 * code) % 2 == 0);
            }
            first = sum << 1;
            code = code << 1;
            length = length + 1;
            proof {
                p = 2 * p;
            }
        }
        Err(InflateError::UnknownCode)
    }
}

proof fn lemma_count_take_le(lengths: Seq<u8>, s: int, len: int)
    requires
        0 <= s <= lengths.len(),
    ensures
        count_of_len(lengths.take(s), len) <= s,
    decreases s,
{
    if s > 0 {
        lemma_syms_take_step(lengths, s - 1, len);
        lemma_count_take_le(lengths, s - 1, len);
    } else {
        assert(lengths.take(0).len() == 0);
    }
}


pub proof fn lemma_decode_advances(lengths: Seq<u8>, data: Seq<u8>, pos: int, len: int, code: int, first: int)
    ensures
        decode_from(lengths, data, pos, len, code, first) matches Ok((_, p)) ==> pos < p <= data.len() * 8,
    decreases 16 - len,
{
    if 1 <= len < 16 && pos + 1 <= data.len() * 8 {
        let c = code + bit_at(data, pos);
        let n = count_of_len(lengths, len);
        lemma_decode_advances(lengths, data, pos + 1, len + 1, 2 * c, 2 * (first + n));
    }
}

// ---------------------------------------------------------------------------
// The tables of RFC 1951 section 3.2.5.

/// The base length of each length code 257..=285.
pub const LENGTH_BASE: [u16; 29] = [
    3, 4, 5, 6, 7, 8, 9, 10, 11, 13, 15, 17, 19, 23, 27, 31, 35, 43, 51, 59, 67, 83, 99, 115, 131,
    163, 195, 227, 258,
];

/// The extra bits each length code carries.
pub const LENGTH_EXTRA: [u32; 29] = [
    0, 0, 0, 0, 0, 0, 0, 0, 1, 1, 1, 1, 2, 2, 2, 2, 3, 3, 3, 3, 4, 4, 4, 4, 5, 5, 5, 5, 0,
];

/// The base distance of each distance code 0..=29.
pub const DIST_BASE: [u16; 30] = [
    1, 2, 3, 4, 5, 7, 9, 13, 17, 25, 33, 49, 65, 97, 129, 193, 257, 385, 513, 769, 1025, 1537,
    2049, 3073, 4097, 6145, 8193, 12289, 16385, 24577,
];

/// The extra bits each distance code carries.
pub const DIST_EXTRA: [u32; 30] = [
    0, 0, 0, 0, 1, 1, 2, 2, 3, 3, 4, 4, 5, 5, 6, 6, 7, 7, 8, 8, 9, 9, 10, 10, 11, 11, 12, 12, 13,
    13,
];

/// The order the code-length code lengths are written in (RFC 1951 section 3.2.7).
pub const ORDER: [usize; 19] = [16, 17, 18, 0, 8, 7, 9, 6, 10, 5, 11, 4, 12, 3, 13, 2, 14, 1, 15];

/// The literal/length code lengths of a fixed-Huffman block (RFC 1951 section 3.2.6).
pub open spec fn fixed_literal_lengths() -> Seq<u8> {
    Seq::new(
        288,
        |i: int|
            if i < 144 {
                8u8
            } else if i < 256 {
                9u8
            } else if i < 280 {
                7u8
            } else {
                8u8
            },
    )
}

/// The distance code lengths of a fixed-Huffman block.
pub open spec fn fixed_distance_lengths() -> Seq<u8> {
    Seq::new(30, |i: int| 5u8)
}

// ---------------------------------------------------------------------------
// The meaning of a Huffman-coded block.

/// A back-reference copy of `n` bytes starting at `start`: byte by byte, so a match may
/// overlap the bytes it is producing (a run).
pub open spec fn copy_run(out: Seq<u8>, start: int, n: nat) -> Seq<u8>
    decreases n,
{
    if n == 0 {
        out
    } else {
        copy_run(out.push(out[start]), start + 1, (n - 1) as nat)
    }
}

/// One symbol of a Huffman block at `pos`: a literal appended to `out`, a back-reference
/// copied onto it, or the end of the block (`true`), with the position after the symbol.
#[verifier::opaque]
pub open spec fn block_symbol(
    lit: Seq<u8>,
    dist: Seq<u8>,
    data: Seq<u8>,
    pos: int,
    out: Seq<u8>,
) -> Result<(Seq<u8>, int, bool), InflateError> {
    match huff_decode(lit, data, pos) {
        Err(e) => Err(e),
        Ok((sym, p1)) => {
            if sym < 256 {
                Ok((out.push(sym as u8), p1, false))
            } else if sym == 256 {
                Ok((out, p1, true))
            } else if sym - 257 >= 29 {
                Err(InflateError::BadLengthCode)
            } else {
                let slot = sym - 257;
                match read_bits(data, p1, LENGTH_EXTRA@[slot] as nat) {
                    Err(e) => Err(e),
                    Ok((extra, p2)) => {
                        let length = LENGTH_BASE@[slot] + extra;
                        match huff_decode(dist, data, p2) {
                            Err(e) => Err(e),
                            Ok((dsym, p3)) => {
                                if dsym >= 30 {
                                    Err(InflateError::BadDistanceCode)
                                } else {
                                    match read_bits(data, p3, DIST_EXTRA@[dsym as int] as nat) {
                                        Err(e) => Err(e),
                                        Ok((dextra, p4)) => {
                                            let back = DIST_BASE@[dsym as int] + dextra;
                                            if back > out.len() {
                                                Err(InflateError::BeforeStart)
                                            } else {
                                                Ok((copy_run(out, out.len() - back, length as nat), p4, false))
                                            }
                                        },
                                    }
                                }
                            },
                        }
                    },
                }
            }
        },
    }
}

pub proof fn lemma_block_symbol_advances(lit: Seq<u8>, dist: Seq<u8>, data: Seq<u8>, pos: int, out: Seq<u8>)
    ensures
        block_symbol(lit, dist, data, pos, out) matches Ok((_, p, _)) ==> pos < p <= data.len() * 8,
{
    reveal(block_symbol);
    lemma_decode_advances(lit, data, pos, 1, 0, 0);
    if let Ok((sym, p1)) = huff_decode(lit, data, pos) {
        if sym >= 257 && sym - 257 < 29 {
            let slot = sym - 257;
            if let Ok((extra, p2)) = read_bits(data, p1, LENGTH_EXTRA@[slot] as nat) {
                lemma_decode_advances(dist, data, p2, 1, 0, 0);
            }
        }
    }
}

/// Decoding the symbols of one Huffman block from `pos` onto `out`, until the end-of-block
/// symbol: the output and the position after the block. The output may not grow past `limit`.
#[verifier::opaque]
pub open spec fn huffman_block(
    lit: Seq<u8>,
    dist: Seq<u8>,
    data: Seq<u8>,
    pos: int,
    out: Seq<u8>,
    limit: int,
) -> Result<(Seq<u8>, int), InflateError>
    decreases data.len() * 8 - pos,
{
    match block_symbol(lit, dist, data, pos, out) {
        Err(e) => Err(e),
        Ok((o, p, end)) => {
            proof {
                lemma_block_symbol_advances(lit, dist, data, pos, out);
            }
            if end {
                Ok((o, p))
            } else if o.len() > limit {
                Err(InflateError::PastLimit(limit as usize))
            } else {
                huffman_block(lit, dist, data, p, o, limit)
            }
        },
    }
}

/// The two tables a fixed-Huffman block uses (RFC 1951 section 3.2.6).
pub fn fixed_tables() -> (r: (Huffman, Huffman))
    ensures
        r.0.wf(),
        r.1.wf(),
        r.0.code_lengths() == fixed_literal_lengths(),
        r.1.code_lengths() == fixed_distance_lengths(),
{
    let mut literal_lengths: Vec<u8> = Vec::new();
    let mut symbol: usize = 0;
    while symbol < 288
        invariant
            symbol <= 288,
            literal_lengths@ == fixed_literal_lengths().take(symbol as int),
        decreases 288 - symbol,
    {
        let length: u8 = if symbol < 144 {
            8
        } else if symbol < 256 {
            9
        } else if symbol < 280 {
            7
        } else {
            8
        };
        literal_lengths.push(length);
        proof {
            assert(fixed_literal_lengths().take(symbol + 1) =~= fixed_literal_lengths().take(
                symbol as int,
            ).push(length));
        }
        symbol = symbol + 1;
    }
    let distance_lengths: Vec<u8> = vec![5u8; 30];
    proof {
        assert(literal_lengths@ =~= fixed_literal_lengths());
        assert(distance_lengths@ =~= fixed_distance_lengths());
    }
    (Huffman::new(literal_lengths.as_slice()), Huffman::new(distance_lengths.as_slice()))
}

/// Decode one symbol of a Huffman block into the output, resolving a back-reference; true
/// at the end of the block.
pub fn decode_symbol(
    reader: &mut BitReader<'_>,
    literal: &Huffman,
    distance: &Huffman,
    out: &mut Vec<u8>,
) -> (r: Result<bool, InflateError>)
    requires
        old(reader).wf(),
        literal.wf(),
        distance.wf(),
    ensures
        final(reader).wf(),
        final(reader).stream() == old(reader).stream(),
        match block_symbol(
            literal.code_lengths(),
            distance.code_lengths(),
            old(reader).stream(),
            old(reader).pos(),
            old(out)@,
        ) {
            Ok((o, p, end)) => r == Ok::<bool, InflateError>(end) && final(out)@ == o && final(reader).pos() == p,
            Err(e) => r == Err::<bool, InflateError>(e),
        },
{
    reveal(block_symbol);
    let symbol = match literal.decode(reader) {
        Ok(symbol) => symbol,
        Err(e) => {
            return Err(e);
        },
    };
    if symbol < 256 {
        out.push(symbol as u8);
        return Ok(false);
    } else if symbol == 256 {
        return Ok(true);
    }
    let slot = (symbol - 257) as usize;
    if slot >= 29 {
        return Err(InflateError::BadLengthCode);
    }
    let extra = match reader.bits(LENGTH_EXTRA[slot]) {
        Ok(extra) => extra,
        Err(e) => {
            return Err(e);
        },
    };
    let length = LENGTH_BASE[slot] as usize + extra as usize;
    let distance_slot = match distance.decode(reader) {
        Ok(d) => d as usize,
        Err(e) => {
            return Err(e);
        },
    };
    if distance_slot >= 30 {
        return Err(InflateError::BadDistanceCode);
    }
    let dextra = match reader.bits(DIST_EXTRA[distance_slot]) {
        Ok(v) => v,
        Err(e) => {
            return Err(e);
        },
    };
    let back = DIST_BASE[distance_slot] as usize + dextra as usize;
    if back > out.len() {
        return Err(InflateError::BeforeStart);
    }
    // A match may overlap the bytes it is producing (a run), so the copy is byte by byte from
    // a moving start rather than a bulk copy.
    let ghost out0 = out@;
    let start = out.len() - back;
    let ghost run = copy_run(out@, start as int, length as nat);
    let mut offset: usize = 0;
    while offset < length
        invariant
            offset <= length,
            1 <= back,
            out@.len() == out0.len() + offset,
            start + back == out0.len(),
            run == copy_run(out@, start + offset, (length - offset) as nat),
        decreases length - offset,
    {
        let n = out.len();
        assert(start + offset < n);
        let byte = out[start + offset];
        out.push(byte);
        offset = offset + 1;
    }
    Ok(false)
}

/// Decode one Huffman block's symbols into the output, resolving back-references.
#[verifier::loop_isolation(false)]
pub fn inflate_huffman_block(
    reader: &mut BitReader<'_>,
    literal: &Huffman,
    distance: &Huffman,
    out: &mut Vec<u8>,
    limit: usize,
) -> (r: Result<(), InflateError>)
    requires
        old(reader).wf(),
        literal.wf(),
        distance.wf(),
    ensures
        final(reader).wf(),
        final(reader).stream() == old(reader).stream(),
        match huffman_block(
            literal.code_lengths(),
            distance.code_lengths(),
            old(reader).stream(),
            old(reader).pos(),
            old(out)@,
            limit as int,
        ) {
            Ok((o, p)) => r is Ok && final(out)@ == o && final(reader).pos() == p,
            Err(e) => r == Err::<(), InflateError>(e),
        },
{
    reveal(huffman_block);
    let ghost lit = literal.code_lengths();
    let ghost dist = distance.code_lengths();
    let ghost data = reader.stream();
    let ghost goal = huffman_block(lit, dist, data, reader.pos(), out@, limit as int);
    loop
        invariant
            reader.wf(),
            literal.wf(),
            distance.wf(),
            lit == literal.code_lengths(),
            dist == distance.code_lengths(),
            reader.stream() == data,
            data == old(reader).stream(),
            goal == huffman_block(lit, dist, data, old(reader).pos(), old(out)@, limit as int),
            goal == huffman_block(lit, dist, data, reader.pos(), out@, limit as int),
        decreases data.len() * 8 - reader.pos(),
    {
        proof {
            lemma_block_symbol_advances(lit, dist, data, reader.pos(), out@);
        }
        let end = match decode_symbol(reader, literal, distance, out) {
            Ok(end) => end,
            Err(e) => {
                return Err(e);
            },
        };
        if end {
            return Ok(());
        }
        if out.len() > limit {
            return Err(InflateError::PastLimit(limit));
        }
    }
}

// ---------------------------------------------------------------------------
// Stored blocks and dynamic headers.

/// The `n` bytes of a stored block, read eight bits at a time onto `out`.
#[verifier::opaque]
pub open spec fn stored_bytes(data: Seq<u8>, pos: int, out: Seq<u8>, n: nat) -> Result<
    (Seq<u8>, int),
    InflateError,
>
    decreases n,
{
    if n == 0 {
        Ok((out, pos))
    } else {
        match read_bits(data, pos, 8) {
            Err(e) => Err(e),
            Ok((v, p)) => stored_bytes(data, p, out.push(v as u8), (n - 1) as nat),
        }
    }
}

/// The code-length code lengths of a dynamic header, slots `slot..count` in the order of
/// ORDER, three bits each.
#[verifier::opaque]
pub open spec fn read_cl_lengths(data: Seq<u8>, pos: int, slot: int, count: int, acc: Seq<u8>) -> Result<
    (Seq<u8>, int),
    InflateError,
>
    decreases count - slot,
{
    if slot >= count || slot < 0 || slot >= 19 {
        Ok((acc, pos))
    } else {
        match read_bits(data, pos, 3) {
            Err(e) => Err(e),
            Ok((v, p)) => read_cl_lengths(data, p, slot + 1, count, acc.update(ORDER@[slot] as int, v as u8)),
        }
    }
}

/// The literal/length and distance code lengths of a dynamic header, decoded with the
/// code-length code `cl` onto `acc` until `total` lengths are known.
#[verifier::opaque]
pub open spec fn read_code_lengths(
    cl: Seq<u8>,
    data: Seq<u8>,
    pos: int,
    acc: Seq<u8>,
    total: int,
) -> Result<(Seq<u8>, int), InflateError>
    decreases total - acc.len(),
{
    if acc.len() >= total {
        Ok((acc, pos))
    } else {
        match huff_decode(cl, data, pos) {
            Err(e) => Err(e),
            Ok((sym, p1)) => {
                if sym <= 15 {
                    read_code_lengths(cl, data, p1, acc.push(sym as u8), total)
                } else if sym == 16 {
                    if acc.len() == 0 {
                        Err(InflateError::NothingToRepeat)
                    } else {
                        match read_bits(data, p1, 2) {
                            Err(e) => Err(e),
                            Ok((v, p2)) => {
                                proof {
                                    lemma_bits_val_bound(data, p1, 2);
                                }
                                let r = 3 + v;
                                if acc.len() + r > total {
                                    Err(InflateError::RepeatOverrun)
                                } else {
                                    read_code_lengths(cl, data, p2, acc + Seq::new(r as nat, |i: int| acc.last()), total)
                                }
                            },
                        }
                    }
                } else if sym == 17 || sym == 18 {
                    let (extra, base) = if sym == 17 { (3nat, 3int) } else { (7nat, 11int) };
                    match read_bits(data, p1, extra) {
                        Err(e) => Err(e),
                        Ok((v, p2)) => {
                            proof {
                                lemma_bits_val_bound(data, p1, extra);
                            }
                            let r = base + v;
                            if acc.len() + r > total {
                                Err(InflateError::RepeatOverrun)
                            } else {
                                read_code_lengths(cl, data, p2, acc + Seq::new(r as nat, |i: int| 0u8), total)
                            }
                        },
                    }
                } else {
                    Err(InflateError::BadCodeLengthSymbol)
                }
            },
        }
    }
}

/// The two code-length lists a dynamic-Huffman block declares in its own header, and the
/// position after the header.
#[verifier::opaque]
pub open spec fn dynamic_header(data: Seq<u8>, pos: int) -> Result<(Seq<u8>, Seq<u8>, int), InflateError> {
    match read_bits(data, pos, 5) {
        Err(e) => Err(e),
        Ok((a, p1)) => match read_bits(data, p1, 5) {
            Err(e) => Err(e),
            Ok((b, p2)) => match read_bits(data, p2, 4) {
                Err(e) => Err(e),
                Ok((c, p3)) => {
                    let literal_count = a + 257;
                    let distance_count = b + 1;
                    if literal_count > 286 || distance_count > 30 {
                        Err(InflateError::TooManyCodes)
                    } else {
                        match read_cl_lengths(data, p3, 0, c + 4, Seq::new(19, |i: int| 0u8)) {
                            Err(e) => Err(e),
                            Ok((cl, p4)) => match read_code_lengths(
                                cl,
                                data,
                                p4,
                                Seq::empty(),
                                literal_count + distance_count,
                            ) {
                                Err(e) => Err(e),
                                Ok((lengths, p5)) => Ok(
                                    (lengths.take(literal_count), lengths.skip(literal_count), p5),
                                ),
                            },
                        }
                    }
                },
            },
        },
    }
}


/// The bytes of a stored block, copied onto the output eight bits at a time.
#[verifier::loop_isolation(false)]
pub fn read_stored(reader: &mut BitReader<'_>, out: &mut Vec<u8>, length: usize) -> (r: Result<(), InflateError>)
    requires
        old(reader).wf(),
    ensures
        final(reader).wf(),
        final(reader).stream() == old(reader).stream(),
        match stored_bytes(old(reader).stream(), old(reader).pos(), old(out)@, length as nat) {
            Ok((o, p)) => r is Ok && final(out)@ == o && final(reader).pos() == p,
            Err(e) => r == Err::<(), InflateError>(e),
        },
{
    reveal(stored_bytes);
    let ghost data = reader.stream();
    let ghost goal = stored_bytes(data, reader.pos(), out@, length as nat);
    let mut done: usize = 0;
    while done < length
        invariant
            reader.wf(),
            reader.stream() == data,
            data == old(reader).stream(),
            done <= length,
            goal == stored_bytes(data, old(reader).pos(), old(out)@, length as nat),
            goal == stored_bytes(data, reader.pos(), out@, (length - done) as nat),
        decreases length - done,
    {
        let byte = match reader.bits(8) {
            Ok(v) => v,
            Err(e) => {
                return Err(e);
            },
        };
        proof {
            vstd::arithmetic::power2::lemma2_to64();
        }
        out.push(byte as u8);
        done = done + 1;
    }
    Ok(())
}

/// The two tables a dynamic-Huffman block declares in its own header.
#[verifier::loop_isolation(false)]
#[verifier::rlimit(60)]
#[verifier::spinoff_prover]
pub fn dynamic_tables(reader: &mut BitReader<'_>) -> (r: Result<(Huffman, Huffman), InflateError>)
    requires
        old(reader).wf(),
    ensures
        final(reader).wf(),
        final(reader).stream() == old(reader).stream(),
        match dynamic_header(old(reader).stream(), old(reader).pos()) {
            Ok((l, d, p)) => r matches Ok((a, b)) && a.wf() && b.wf() && a.code_lengths() == l
                && b.code_lengths() == d && final(reader).pos() == p,
            Err(e) => r matches Err(x) && x == e,
        },
{
    reveal(dynamic_header);
    reveal(read_cl_lengths);
    reveal(read_code_lengths);
    let ghost data = reader.stream();
    let ghost pos0 = reader.pos();
    proof {
        vstd::arithmetic::power2::lemma2_to64();
    }
    let literal_count = match reader.bits(5) {
        Ok(v) => v as usize + 257,
        Err(e) => {
            return Err(e);
        },
    };
    let distance_count = match reader.bits(5) {
        Ok(v) => v as usize + 1,
        Err(e) => {
            return Err(e);
        },
    };
    let code_length_count = match reader.bits(4) {
        Ok(v) => v as usize + 4,
        Err(e) => {
            return Err(e);
        },
    };
    if literal_count > 286 || distance_count > 30 {
        return Err(InflateError::TooManyCodes);
    }
    let ghost p3 = reader.pos();
    let mut code_lengths: Vec<u8> = vec![0u8; 19];
    proof {
        assert(code_lengths@ =~= Seq::new(19, |i: int| 0u8));
    }
    let ghost cl_goal = read_cl_lengths(data, p3, 0, code_length_count as int, code_lengths@);
    let mut slot: usize = 0;
    while slot < code_length_count
        invariant
            reader.wf(),
            reader.stream() == data,
            slot <= code_length_count <= 19,
            code_lengths@.len() == 19,
            forall|i: int| 0 <= i < 19 ==> #[trigger] code_lengths@[i] < 8,
            cl_goal == read_cl_lengths(data, reader.pos(), slot as int, code_length_count as int, code_lengths@),
        decreases code_length_count - slot,
    {
        let v = match reader.bits(3) {
            Ok(v) => v,
            Err(e) => {
                return Err(e);
            },
        };
        proof {
            vstd::arithmetic::power2::lemma2_to64();
        }
        code_lengths.set(ORDER[slot], v as u8);
        slot = slot + 1;
    }
    let ghost cl = code_lengths@;
    let code_length_table = Huffman::new(code_lengths.as_slice());
    let total = literal_count + distance_count;
    let mut lengths: Vec<u8> = vec![0u8; total];
    let ghost p4 = reader.pos();
    let ghost goal = read_code_lengths(cl, data, p4, Seq::empty(), total as int);
    proof {
        assert(lengths@.take(0) =~= Seq::<u8>::empty());
    }
    let mut index: usize = 0;
    while index < total
        invariant
            reader.wf(),
            reader.stream() == data,
            code_length_table.wf(),
            code_length_table.code_lengths() == cl,
            total <= 316,
            index <= total,
            lengths@.len() == total,
            forall|i: int| index <= i < total ==> #[trigger] lengths@[i] == 0,
            forall|i: int| 0 <= i < total ==> #[trigger] lengths@[i] < 16,
            goal == read_code_lengths(cl, data, reader.pos(), lengths@.take(index as int), total as int),
        decreases total - index,
    {
        let ghost acc = lengths@.take(index as int);
        let ghost pos1 = reader.pos();
        let symbol = match code_length_table.decode(reader) {
            Ok(s) => s,
            Err(e) => {
                return Err(e);
            },
        };
        if symbol <= 15 {
            lengths.set(index, symbol as u8);
            proof {
                assert(lengths@.take(index + 1) =~= acc.push(symbol as u8));
            }
            index = index + 1;
        } else if symbol == 16 {
            if index == 0 {
                return Err(InflateError::NothingToRepeat);
            }
            let previous = lengths[index - 1];
            let extra = match reader.bits(2) {
                Ok(v) => v,
                Err(e) => {
                    return Err(e);
                },
            };
            let repeat = 3 + extra as usize;
            if index + repeat > total {
                return Err(InflateError::RepeatOverrun);
            }
            let ghost start = index;
            let mut k: usize = 0;
            while k < repeat
                invariant
                    index == start + k,
                    k <= repeat,
                    start + repeat <= total,
                    start >= 1,
                    lengths@.len() == total,
                    previous < 16,
                    acc.len() == start,
                    acc.last() == previous,
                    forall|i: int| index <= i < total ==> #[trigger] lengths@[i] == 0,
                    forall|i: int| 0 <= i < total ==> #[trigger] lengths@[i] < 16,
                    lengths@.take(index as int) =~= acc + Seq::new(k as nat, |i: int| previous),
                decreases repeat - k,
            {
                let ghost before = lengths@;
                lengths.set(index, previous);
                proof {
                    assert(lengths@.take(index as int) =~= before.take(index as int));
                    assert(lengths@.take(index + 1) =~= before.take(index as int).push(previous));
                    assert(lengths@.take(index + 1) =~= acc + Seq::new((k + 1) as nat, |i: int| previous));
                }
                index = index + 1;
                k = k + 1;
            }
        } else if symbol == 17 || symbol == 18 {
            let (count, base): (u32, usize) = if symbol == 17 { (3, 3) } else { (7, 11) };
            let extra = match reader.bits(count) {
                Ok(v) => v,
                Err(e) => {
                    return Err(e);
                },
            };
            let repeat = base + extra as usize;
            if index + repeat > total {
                return Err(InflateError::RepeatOverrun);
            }
            proof {
                assert(lengths@.take(index + repeat) =~= acc + Seq::new(repeat as nat, |i: int| 0u8));
            }
            index = index + repeat;
        } else {
            return Err(InflateError::BadCodeLengthSymbol);
        }
    }
    proof {
        assert(lengths@.take(total as int) =~= lengths@);
    }
    let ghost all = lengths@;
    let distance_lengths = lengths.split_off(literal_count);
    proof {
        assert(lengths@ =~= all.take(literal_count as int));
        assert(distance_lengths@ =~= all.skip(literal_count as int));
    }
    Ok((Huffman::new(lengths.as_slice()), Huffman::new(distance_lengths.as_slice())))
}


// ---------------------------------------------------------------------------
// The whole stream.

pub proof fn lemma_stored_advances(data: Seq<u8>, pos: int, out: Seq<u8>, n: nat)
    ensures
        stored_bytes(data, pos, out, n) matches Ok((_, q)) ==> pos <= q && (pos <= data.len() * 8
            ==> q <= data.len() * 8),
    decreases n,
{
    reveal(stored_bytes);
    if n > 0 {
        if let Ok((v, p)) = read_bits(data, pos, 8) {
            lemma_stored_advances(data, p, out.push(v as u8), (n - 1) as nat);
        }
    }
}

pub proof fn lemma_huffman_block_advances(
    lit: Seq<u8>,
    dist: Seq<u8>,
    data: Seq<u8>,
    pos: int,
    out: Seq<u8>,
    limit: int,
)
    ensures
        huffman_block(lit, dist, data, pos, out, limit) matches Ok((_, q)) ==> pos < q <= data.len()
            * 8,
    decreases data.len() * 8 - pos,
{
    reveal(huffman_block);
    lemma_block_symbol_advances(lit, dist, data, pos, out);
    if let Ok((o, p, end)) = block_symbol(lit, dist, data, pos, out) {
        if !end && o.len() <= limit {
            lemma_huffman_block_advances(lit, dist, data, p, o, limit);
        }
    }
}

/// The order RFC 1951 (section 3.2.7) gives the code-length code lengths of a dynamic header
/// in: the first three bits are the length of code-length symbol 16, the next of 17, then 18,
/// 0, 8, 7, 9, 6, 10, 5, 11, 4, 12, 3, 13, 2, 14, 1, 15.
pub open spec fn rfc_code_length_order() -> Seq<int> {
    seq![16, 17, 18, 0, 8, 7, 9, 6, 10, 5, 11, 4, 12, 3, 13, 2, 14, 1, 15]
}

proof fn lemma_rfc_order_facts()
    ensures
        rfc_code_length_order().len() == 19,
        forall|i: int| 0 <= i < 19 ==> #[trigger] ORDER@[i] as int == rfc_code_length_order()[i],
        forall|i: int| 0 <= i < 19 ==> 0 <= #[trigger] rfc_code_length_order()[i] < 19,
        forall|i: int, j: int| 0 <= i < 19 && 0 <= j < 19 && i != j ==> #[trigger] rfc_code_length_order()[i]
            != #[trigger] rfc_code_length_order()[j],
{
    let o = rfc_code_length_order();
    assert(ORDER@ =~= seq![16usize, 17, 18, 0, 8, 7, 9, 6, 10, 5, 11, 4, 12, 3, 13, 2, 14, 1, 15]);
    assert(o[0] == 16 && o[1] == 17 && o[2] == 18 && o[3] == 0 && o[4] == 8 && o[5] == 7 && o[6] == 9 && o[7] == 6
        && o[8] == 10 && o[9] == 5 && o[10] == 11 && o[11] == 4 && o[12] == 12 && o[13] == 3 && o[14] == 13 && o[15] == 2
        && o[16] == 14 && o[17] == 1 && o[18] == 15);
}

proof fn lemma_cl_slots(data: Seq<u8>, p0: int, slot: int, count: int, acc: Seq<u8>)
    requires
        0 <= slot <= count <= 19,
        acc.len() == 19,
        0 <= p0,
        p0 + 3 * count <= data.len() * 8,
    ensures
        read_cl_lengths(data, p0 + 3 * slot, slot, count, acc) matches Ok((cl, p)) && p == p0 + 3 * count && cl.len() == 19
            && (forall|i: int| slot <= i < count ==> #[trigger] cl[rfc_code_length_order()[i]] == bits_val(data, p0 + 3 * i, 3) as u8)
            && (forall|i: int| 0 <= i < 19 && !(slot <= i < count) ==> #[trigger] cl[rfc_code_length_order()[i]] == acc[rfc_code_length_order()[i]]),
    decreases count - slot,
{
    reveal(read_cl_lengths);
    lemma_rfc_order_facts();
    let o = rfc_code_length_order();
    if slot < count {
        let v = bits_val(data, p0 + 3 * slot, 3);
        assert(read_bits(data, p0 + 3 * slot, 3) == Ok::<(int, int), InflateError>((v, p0 + 3 * slot + 3)));
        let acc2 = acc.update(ORDER@[slot] as int, v as u8);
        assert(ORDER@[slot] as int == o[slot]);
        assert(p0 + 3 * slot + 3 == p0 + 3 * (slot + 1));
        lemma_cl_slots(data, p0, slot + 1, count, acc2);
        let (cl, p) = read_cl_lengths(data, p0 + 3 * (slot + 1), slot + 1, count, acc2)->Ok_0;
        assert(read_cl_lengths(data, p0 + 3 * slot, slot, count, acc) == read_cl_lengths(data, p0 + 3 * (slot + 1), slot + 1, count, acc2));
        assert forall|i: int| slot <= i < count implies #[trigger] cl[o[i]] == bits_val(data, p0 + 3 * i, 3) as u8 by {
            if i == slot {
                assert(acc2[o[slot]] == v as u8);
            }
        }
        assert forall|i: int| 0 <= i < 19 && !(slot <= i < count) implies #[trigger] cl[o[i]] == acc[o[i]] by {
            assert(o[i] != o[slot]);
            assert(acc2[o[i]] == acc[o[i]]);
        }
    }
}

/// The code-length section of a dynamic header is read in RFC 1951's order: its `i`-th three
/// bits are the code length of code-length symbol `rfc_code_length_order()[i]`, and a symbol
/// the header gives no bits for has length 0.
pub proof fn lemma_code_length_code_in_rfc_order(data: Seq<u8>, pos: int, count: int)
    requires
        4 <= count <= 19,
        0 <= pos,
        pos + 3 * count <= data.len() * 8,
    ensures
        read_cl_lengths(data, pos, 0, count, Seq::new(19, |i: int| 0u8)) matches Ok((cl, p)) && p == pos + 3 * count
            && cl.len() == 19
            && (forall|i: int| 0 <= i < count ==> #[trigger] cl[rfc_code_length_order()[i]] == bits_val(data, pos + 3 * i, 3) as u8)
            && (forall|i: int| count <= i < 19 ==> #[trigger] cl[rfc_code_length_order()[i]] == 0u8),
{
    lemma_rfc_order_facts();
    lemma_cl_slots(data, pos, 0, count, Seq::new(19, |i: int| 0u8));
    assert(pos + 3 * 0 == pos);
}

/// For each code-length symbol `s`, the place of its three bits in a dynamic header's
/// code-length section (RFC 1951, section 3.2.7).
pub open spec fn rfc_slot_of_symbol() -> Seq<int> {
    seq![3, 17, 15, 13, 11, 9, 7, 5, 4, 6, 8, 10, 12, 14, 16, 18, 0, 1, 2]
}

/// The code-length code lengths that `count` three-bit values at `pos` declare: symbol `s`
/// has the value in its RFC 1951 place, or 0 where the header stops before that place.
pub open spec fn rfc_code_length_table(data: Seq<u8>, pos: int, count: int) -> Seq<u8> {
    Seq::new(
        19,
        |s: int|
            if rfc_slot_of_symbol()[s] < count {
                bits_val(data, pos + 3 * rfc_slot_of_symbol()[s], 3) as u8
            } else {
                0u8
            },
    )
}

/// A dynamic-Huffman header is HLIT (5 bits), HDIST (5 bits), HCLEN (4 bits), then HCLEN + 4
/// three-bit code-length code lengths in RFC 1951's order, then the literal/length and
/// distance code lengths, which are decoded with the code-length code those values declare.
pub proof fn lemma_dynamic_header_reads_rfc_table(data: Seq<u8>, pos: int)
    requires
        0 <= pos,
        pos + 14 + 3 * (bits_val(data, pos + 10, 4) + 4) <= data.len() * 8,
    ensures
        ({
            let nl = bits_val(data, pos, 5) + 257;
            let nd = bits_val(data, pos + 5, 5) + 1;
            let count = bits_val(data, pos + 10, 4) + 4;
            dynamic_header(data, pos) == if nl > 286 || nd > 30 {
                Err::<(Seq<u8>, Seq<u8>, int), InflateError>(InflateError::TooManyCodes)
            } else {
                match read_code_lengths(
                    rfc_code_length_table(data, pos + 14, count),
                    data,
                    pos + 14 + 3 * count,
                    Seq::empty(),
                    nl + nd,
                ) {
                    Err(e) => Err(e),
                    Ok((l, p)) => Ok((l.take(nl), l.skip(nl), p)),
                }
            }
        }),
{
    reveal(dynamic_header);
    lemma_bits_val_bound(data, pos + 10, 4);
    vstd::arithmetic::power2::lemma2_to64();
    let count = bits_val(data, pos + 10, 4) + 4;
    lemma_code_length_code_in_rfc_order(data, pos + 14, count);
    lemma_rfc_order_facts();
    let cl = read_cl_lengths(data, pos + 14, 0, count, Seq::new(19, |i: int| 0u8))->Ok_0.0;
    let o = rfc_code_length_order();
    let sl = rfc_slot_of_symbol();
    assert(sl[0] == 3 && sl[1] == 17 && sl[2] == 15 && sl[3] == 13 && sl[4] == 11 && sl[5] == 9 && sl[6] == 7
        && sl[7] == 5 && sl[8] == 4 && sl[9] == 6 && sl[10] == 8 && sl[11] == 10 && sl[12] == 12 && sl[13] == 14
        && sl[14] == 16 && sl[15] == 18 && sl[16] == 0 && sl[17] == 1 && sl[18] == 2);
    assert(o[0] == 16 && o[1] == 17 && o[2] == 18 && o[3] == 0 && o[4] == 8 && o[5] == 7 && o[6] == 9 && o[7] == 6
        && o[8] == 10 && o[9] == 5 && o[10] == 11 && o[11] == 4 && o[12] == 12 && o[13] == 3 && o[14] == 13 && o[15] == 2
        && o[16] == 14 && o[17] == 1 && o[18] == 15);
    assert forall|s: int| 0 <= s < 19 implies #[trigger] cl[s] == rfc_code_length_table(data, pos + 14, count)[s] by {
        let i = sl[s];
        assert(0 <= i < 19 && o[i] == s);
        if i < count {
            assert(cl[o[i]] == bits_val(data, pos + 14 + 3 * i, 3) as u8);
        } else {
            assert(cl[o[i]] == 0u8);
        }
    }
    assert(cl =~= rfc_code_length_table(data, pos + 14, count));
    assert(pos + 5 + 5 == pos + 10 && pos + 10 + 4 == pos + 14);
}

pub proof fn lemma_cl_advances(data: Seq<u8>, pos: int, slot: int, count: int, acc: Seq<u8>)
    ensures
        read_cl_lengths(data, pos, slot, count, acc) matches Ok((_, q)) ==> pos <= q && (pos
            <= data.len() * 8 ==> q <= data.len() * 8),
    decreases count - slot,
{
    reveal(read_cl_lengths);
    if !(slot >= count || slot < 0 || slot >= 19) {
        if let Ok((v, p)) = read_bits(data, pos, 3) {
            lemma_cl_advances(data, p, slot + 1, count, acc.update(ORDER@[slot] as int, v as u8));
        }
    }
}

pub proof fn lemma_code_lengths_advances(cl: Seq<u8>, data: Seq<u8>, pos: int, acc: Seq<u8>, total: int)
    ensures
        read_code_lengths(cl, data, pos, acc, total) matches Ok((_, q)) ==> pos <= q && (pos
            <= data.len() * 8 ==> q <= data.len() * 8),
    decreases total - acc.len(),
{
    reveal(read_code_lengths);
    if acc.len() < total {
        lemma_decode_advances(cl, data, pos, 1, 0, 0);
        if let Ok((sym, p1)) = huff_decode(cl, data, pos) {
            if sym <= 15 {
                lemma_code_lengths_advances(cl, data, p1, acc.push(sym as u8), total);
            } else if sym == 16 {
                if acc.len() != 0 {
                    if let Ok((v, p2)) = read_bits(data, p1, 2) {
                        lemma_bits_val_bound(data, p1, 2);
                        let r = 3 + v;
                        if acc.len() + r <= total {
                            lemma_code_lengths_advances(
                                cl,
                                data,
                                p2,
                                acc + Seq::new(r as nat, |i: int| acc.last()),
                                total,
                            );
                        }
                    }
                }
            } else if sym == 17 || sym == 18 {
                let (extra, base) = if sym == 17 {
                    (3nat, 3int)
                } else {
                    (7nat, 11int)
                };
                if let Ok((v, p2)) = read_bits(data, p1, extra) {
                    lemma_bits_val_bound(data, p1, extra);
                    let r = base + v;
                    if acc.len() + r <= total {
                        lemma_code_lengths_advances(
                            cl,
                            data,
                            p2,
                            acc + Seq::new(r as nat, |i: int| 0u8),
                            total,
                        );
                    }
                }
            }
        }
    }
}

pub proof fn lemma_dynamic_header_advances(data: Seq<u8>, pos: int)
    ensures
        dynamic_header(data, pos) matches Ok((_, _, q)) ==> pos < q <= data.len() * 8,
{
    reveal(dynamic_header);
    if let Ok((a, p1)) = read_bits(data, pos, 5) {
        if let Ok((b, p2)) = read_bits(data, p1, 5) {
            if let Ok((c, p3)) = read_bits(data, p2, 4) {
                lemma_cl_advances(data, p3, 0, c + 4, Seq::new(19, |i: int| 0u8));
                if let Ok((cl, p4)) = read_cl_lengths(data, p3, 0, c + 4, Seq::new(19, |i: int| 0u8)) {
                    lemma_code_lengths_advances(cl, data, p4, Seq::empty(), a + 257 + b + 1);
                }
            }
        }
    }
}

/// One block of the stream at `pos`: the output after it, the position after it, and whether
/// it was marked final. Huffman blocks may not grow the output past `expected`.
#[verifier::opaque]
pub open spec fn inflate_block(data: Seq<u8>, pos: int, out: Seq<u8>, expected: int) -> Result<
    (Seq<u8>, int, bool),
    InflateError,
> {
    match read_bits(data, pos, 1) {
        Err(e) => Err(e),
        Ok((fin, p1)) => match read_bits(data, p1, 2) {
            Err(e) => Err(e),
            Ok((kind, p2)) => {
                let body: Result<(Seq<u8>, int), InflateError> = if kind == 0 {
                    match read_bits(data, align_up(p2), 16) {
                        Err(e) => Err(e),
                        Ok((length, p4)) => match read_bits(data, p4, 16) {
                            Err(e) => Err(e),
                            Ok((complement, p5)) => {
                                if (length as u32) ^ 0xFFFFu32 != complement as u32 {
                                    Err(InflateError::BrokenStoredLength)
                                } else {
                                    stored_bytes(data, p5, out, length as nat)
                                }
                            },
                        },
                    }
                } else if kind == 1 {
                    huffman_block(
                        fixed_literal_lengths(),
                        fixed_distance_lengths(),
                        data,
                        p2,
                        out,
                        expected,
                    )
                } else if kind == 2 {
                    match dynamic_header(data, p2) {
                        Err(e) => Err(e),
                        Ok((lit, dist, p3)) => huffman_block(lit, dist, data, p3, out, expected),
                    }
                } else {
                    Err(InflateError::BadBlockType)
                };
                match body {
                    Err(e) => Err(e),
                    Ok((o, q)) => Ok((o, q, fin == 1)),
                }
            },
        },
    }
}

pub proof fn lemma_inflate_block_advances(data: Seq<u8>, pos: int, out: Seq<u8>, expected: int)
    ensures
        inflate_block(data, pos, out, expected) matches Ok((_, q, _)) ==> pos < q <= data.len() * 8,
{
    reveal(inflate_block);
    if let Ok((fin, p1)) = read_bits(data, pos, 1) {
        if let Ok((kind, p2)) = read_bits(data, p1, 2) {
            if kind == 0 {
                if let Ok((length, p4)) = read_bits(data, align_up(p2), 16) {
                    if let Ok((complement, p5)) = read_bits(data, p4, 16) {
                        lemma_stored_advances(data, p5, out, length as nat);
                        lemma_align_up(p2);
                    }
                }
            } else if kind == 1 {
                lemma_huffman_block_advances(
                    fixed_literal_lengths(),
                    fixed_distance_lengths(),
                    data,
                    p2,
                    out,
                    expected,
                );
            } else if kind == 2 {
                lemma_dynamic_header_advances(data, p2);
                if let Ok((lit, dist, p3)) = dynamic_header(data, p2) {
                    lemma_huffman_block_advances(lit, dist, data, p3, out, expected);
                }
            }
        }
    }
}

pub proof fn lemma_align_up(pos: int)
    ensures
        pos <= align_up(pos),
{
    lemma_fundamental_div_mod(pos, 8);
}

/// The blocks of the stream from `pos`, onto `out`, up to and including the final one. The
/// output may not grow past `expected` between blocks either.
pub open spec fn inflate_from(data: Seq<u8>, pos: int, out: Seq<u8>, expected: int) -> Result<
    Seq<u8>,
    InflateError,
>
    decreases data.len() * 8 - pos,
{
    match inflate_block(data, pos, out, expected) {
        Err(e) => Err(e),
        Ok((o, q, fin)) => {
            proof {
                lemma_inflate_block_advances(data, pos, out, expected);
            }
            if fin {
                Ok(o)
            } else if o.len() > expected {
                Err(InflateError::PastDeclared)
            } else {
                inflate_from(data, q, o, expected)
            }
        },
    }
}

/// The meaning of a raw DEFLATE stream (RFC 1951) that must expand to exactly `expected`
/// bytes: the bytes, or why it was refused.
pub open spec fn spec_inflate(data: Seq<u8>, expected: int) -> Result<Seq<u8>, InflateError> {
    match inflate_from(data, 0, Seq::empty(), expected) {
        Err(e) => Err(e),
        Ok(o) => if o.len() != expected {
            Err(InflateError::SizeMismatch(o.len() as usize, expected as usize))
        } else {
            Ok(o)
        },
    }
}


/// A stream is never trusted for less or more than it declares: what inflating gives back is
/// exactly the declared size, and a stream that produces any other size is refused.
pub proof fn lemma_inflate_gives_declared_size(data: Seq<u8>, expected: int)
    ensures
        spec_inflate(data, expected) matches Ok(o) ==> o.len() == expected,
{
}

/// One block of the stream onto the output; true when it was the final block.
#[verifier::loop_isolation(false)]
pub fn inflate_one_block(reader: &mut BitReader<'_>, out: &mut Vec<u8>, expected: usize) -> (r: Result<bool, InflateError>)
    requires
        old(reader).wf(),
    ensures
        final(reader).wf(),
        final(reader).stream() == old(reader).stream(),
        match inflate_block(old(reader).stream(), old(reader).pos(), old(out)@, expected as int) {
            Ok((o, q, fin)) => r == Ok::<bool, InflateError>(fin) && final(out)@ == o && final(reader).pos() == q,
            Err(e) => r == Err::<bool, InflateError>(e),
        },
{
    reveal(inflate_block);
    let ghost data = reader.stream();
    let ghost pos0 = reader.pos();
    let ghost out0 = out@;
    let final_block = match reader.bit() {
        Ok(b) => b == 1,
        Err(e) => {
            return Err(e);
        },
    };
    let kind = match reader.bits(2) {
        Ok(k) => k,
        Err(e) => {
            return Err(e);
        },
    };
    if kind == 0 {
        reader.align();
        let length = match reader.bits(16) {
            Ok(v) => v,
            Err(e) => {
                return Err(e);
            },
        };
        let complement = match reader.bits(16) {
            Ok(v) => v,
            Err(e) => {
                return Err(e);
            },
        };
        if length ^ 0xFFFF != complement {
            return Err(InflateError::BrokenStoredLength);
        }
        match read_stored(reader, out, length as usize) {
            Ok(()) => {},
            Err(e) => {
                return Err(e);
            },
        }
        assert(inflate_block(data, pos0, out0, expected as int) == Ok::<(Seq<u8>, int, bool), InflateError>((out@, reader.pos(), final_block)));
    } else if kind == 1 {
        let (literal, distance) = fixed_tables();
        match inflate_huffman_block(reader, &literal, &distance, out, expected) {
            Ok(()) => {},
            Err(e) => {
                return Err(e);
            },
        }
        assert(inflate_block(data, pos0, out0, expected as int) == Ok::<(Seq<u8>, int, bool), InflateError>((out@, reader.pos(), final_block)));
    } else if kind == 2 {
        let (literal, distance) = match dynamic_tables(reader) {
            Ok(tables) => tables,
            Err(e) => {
                return Err(e);
            },
        };
        match inflate_huffman_block(reader, &literal, &distance, out, expected) {
            Ok(()) => {},
            Err(e) => {
                return Err(e);
            },
        }
    } else {
        return Err(InflateError::BadBlockType);
    }
    Ok(final_block)
}

/// Unpack one raw DEFLATE stream (RFC 1951), expecting exactly `expected` bytes. The bound is
/// enforced while decoding, not after, so a container that claims to be small cannot be used to
/// make this server expand without limit.
pub fn inflate(data: &[u8], expected: usize) -> (r: Result<Vec<u8>, InflateError>)
    ensures
        match spec_inflate(data@, expected as int) {
            Ok(o) => r matches Ok(v) && v@ == o,
            Err(e) => r matches Err(x) && x == e,
        },
{
    let mut reader = BitReader::new(data);
    let mut out: Vec<u8> = Vec::with_capacity(expected);
    let ghost goal = inflate_from(data@, 0, Seq::empty(), expected as int);
    loop
        invariant_except_break
            goal == inflate_from(data@, reader.pos(), out@, expected as int),
        invariant
            reader.wf(),
            reader.stream() == data@,
            goal == inflate_from(data@, 0, Seq::empty(), expected as int),
        ensures
            goal == Ok::<Seq<u8>, InflateError>(out@),
        decreases data@.len() * 8 - reader.pos(),
    {
        proof {
            lemma_inflate_block_advances(data@, reader.pos(), out@, expected as int);
        }
        let final_block = match inflate_one_block(&mut reader, &mut out, expected) {
            Ok(f) => f,
            Err(e) => {
                return Err(e);
            },
        };
        if final_block {
            break;
        }
        if out.len() > expected {
            return Err(InflateError::PastDeclared);
        }
    }
    if out.len() != expected {
        return Err(InflateError::SizeMismatch(out.len(), expected));
    }
    Ok(out)
}


impl InflateError {
    /// The sentence a person is shown for this refusal.
    pub open spec fn text(self) -> Seq<char> {
        match self {
            InflateError::Truncated => "the deflate stream ended in the middle of a code"@,
            InflateError::UnknownCode => "the deflate stream carries a code outside its Huffman table"@,
            InflateError::TooManyCodes => "the deflate header declares more codes than the format allows"@,
            InflateError::NothingToRepeat => "a deflate repeat has no previous length to repeat"@,
            InflateError::RepeatOverrun => "a deflate repeat runs past the code list"@,
            InflateError::BadCodeLengthSymbol => "the deflate stream uses an invalid code-length symbol"@,
            InflateError::BadLengthCode => "the deflate stream uses an invalid length code"@,
            InflateError::BadDistanceCode => "the deflate stream uses an invalid distance code"@,
            InflateError::BeforeStart => "the deflate stream refers before the start of its output"@,
            InflateError::PastLimit(limit) => "the deflate stream expands past the "@ + decimal(
                limit as nat,
            ) + " bytes its container declares"@,
            InflateError::BrokenStoredLength => "a stored deflate block declares a broken length"@,
            InflateError::PastDeclared => "the deflate stream expands past what its container declares"@,
            InflateError::BadBlockType => "the deflate stream declares an invalid block type"@,
            InflateError::SizeMismatch(produced, declared) => "the deflate stream expands to "@
                + decimal(produced as nat) + " bytes and its container declares "@ + decimal(
                declared as nat,
            ),
        }
    }

    /// The sentence a person is shown for this refusal.
    pub fn message(&self) -> (s: String)
        ensures
            s@ == self.text(),
    {
        match self {
            InflateError::Truncated => text("the deflate stream ended in the middle of a code"),
            InflateError::UnknownCode => text("the deflate stream carries a code outside its Huffman table"),
            InflateError::TooManyCodes => text("the deflate header declares more codes than the format allows"),
            InflateError::NothingToRepeat => text("a deflate repeat has no previous length to repeat"),
            InflateError::RepeatOverrun => text("a deflate repeat runs past the code list"),
            InflateError::BadCodeLengthSymbol => text("the deflate stream uses an invalid code-length symbol"),
            InflateError::BadLengthCode => text("the deflate stream uses an invalid length code"),
            InflateError::BadDistanceCode => text("the deflate stream uses an invalid distance code"),
            InflateError::BeforeStart => text("the deflate stream refers before the start of its output"),
            InflateError::PastLimit(limit) => {
                let mut s = text("the deflate stream expands past the ");
                s.append(decimal_string(*limit as u64).as_str());
                s.append(" bytes its container declares");
                s
            },
            InflateError::BrokenStoredLength => text("a stored deflate block declares a broken length"),
            InflateError::PastDeclared => text("the deflate stream expands past what its container declares"),
            InflateError::BadBlockType => text("the deflate stream declares an invalid block type"),
            InflateError::SizeMismatch(produced, declared) => {
                let mut s = text("the deflate stream expands to ");
                s.append(decimal_string(*produced as u64).as_str());
                s.append(" bytes and its container declares ");
                s.append(decimal_string(*declared as u64).as_str());
                s
            },
        }
    }
}

} // verus!
