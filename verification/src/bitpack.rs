use vstd::prelude::*;
use vstd::arithmetic::power2::{lemma2_to64, lemma_pow2_pos, lemma_pow2_unfold, pow2};
use vstd::arithmetic::div_mod::lemma_div_denominator;
use vstd::bits::{lemma_u32_shl_is_mul, lemma_u32_shr_is_div};
use vstd::bytes::{
    lemma_auto_spec_u32_to_from_le_bytes, spec_u32_from_le_bytes, spec_u32_to_le_bytes,
    u32_from_le_bytes, u32_to_le_bytes,
};
use vstd::slice::slice_subrange;
use crate::bitseq::{bit_at, lemma_window_agree, lemma_window_bound, lemma_window_push, window};

verus! {

/// Number of 32-bit words that `n` bits fill or touch.
pub open spec fn word_count(n: nat) -> nat {
    (n + 31) / 32
}

/// Word `i` of a bit stream: its bits `32 i ..`, the first one on top, with
/// zeros where the stream has ended.
pub open spec fn word_of(bits: Seq<bool>, i: int) -> u32 {
    window(bits, 32 * i, 32) as u32
}

/// The bytes of a sequence of words, each word little-endian.
pub open spec fn bytes_of_words(words: Seq<u32>) -> Seq<u8> {
    Seq::new(4 * words.len(), |j: int| spec_u32_to_le_bytes(words[j / 4])[j % 4])
}

/// The first `n` words of a bit stream.
pub open spec fn words_of(bits: Seq<bool>, n: nat) -> Seq<u32> {
    Seq::new(n, |i: int| word_of(bits, i))
}

/// The code region of a bit stream: its words, the last one filled up with
/// zeros.
pub open spec fn packed(bits: Seq<bool>) -> Seq<u8> {
    bytes_of_words(words_of(bits, word_count(bits.len())))
}

/// How many bits of the last word of a stream of `n` bits are in use. An
/// empty stream has no last word and counts as one that ends on a full word.
pub open spec fn trailing_bits(n: nat) -> nat {
    if n % 32 == 0 {
        32
    } else {
        n % 32
    }
}

/// Number of bits that a code region of `code_len` bytes holds when
/// `trailing` bits of its last word are in use.
pub open spec fn valid_len(code_len: nat, trailing: nat) -> nat {
    if 8 * code_len + trailing >= 32 {
        (8 * code_len + trailing - 32) as nat
    } else {
        0
    }
}

/// Word `i` of a code region.
pub open spec fn word_at(code: Seq<u8>, i: int) -> u32 {
    spec_u32_from_le_bytes(code.subrange(4 * i, 4 * i + 4))
}

/// Bit `r` of a word, counted from the top.
pub open spec fn word_bit(w: u32, r: int) -> bool {
    (w >> ((31 - r) as u32)) & 1 == 1
}

/// The bit stream that a code region holds.
pub open spec fn unpacked(code: Seq<u8>, trailing: nat) -> Seq<bool> {
    Seq::new(valid_len(code.len(), trailing), |j: int| word_bit(word_at(code, j / 32), j % 32))
}

/// The length of the code region and the count of bits in use in its last
/// word give the number of bits that were sent.
pub proof fn lemma_bit_accounting(bits: Seq<bool>)
    ensures
        packed(bits).len() == 4 * word_count(bits.len()),
        packed(bits).len() % 4 == 0,
        1 <= trailing_bits(bits.len()) <= 32,
        8 * packed(bits).len() + trailing_bits(bits.len()) - 32 == bits.len(),
        valid_len(packed(bits).len(), trailing_bits(bits.len())) == bits.len(),
{
}

/// Zeros behind the end of a stream shift a window up.
pub proof fn lemma_window_pad(s: Seq<bool>, start: int, n: int, z: int)
    requires
        0 <= n,
        0 <= z,
        s.len() <= start + n,
    ensures
        window(s, start, n + z) == window(s, start, n) * pow2(z as nat),
    decreases z,
{
    if z == 0 {
        lemma2_to64();
    } else {
        lemma_window_pad(s, start, n, z - 1);
        lemma_pow2_unfold(z as nat);
        let w = window(s, start, n);
        let a = pow2((z - 1) as nat);
        assert(2 * (w * a) == w * (2 * a)) by (nonlinear_arith);
    }
}

/// The digit of a window at place `r` from its top is the stream's bit.
pub proof fn lemma_window_digit(s: Seq<bool>, start: int, n: int, r: int)
    requires
        0 <= r < n,
    ensures
        (window(s, start, n) / pow2((n - 1 - r) as nat) as int) % 2 == bit_at(s, start + r),
    decreases n,
{
    let w = window(s, start, n - 1);
    let b = bit_at(s, start + n - 1);
    assert(window(s, start, n) == 2 * w + b);
    let x = window(s, start, n);
    if r == n - 1 {
        lemma2_to64();
        assert(pow2((n - 1 - r) as nat) as int == 1);
        assert(x / 1 == x);
    } else {
        lemma_window_digit(s, start, n - 1, r);
        lemma_window_bound(s, start, n - 1);
        let d = pow2((n - 2 - r) as nat) as int;
        lemma_pow2_pos((n - 2 - r) as nat);
        lemma_pow2_unfold((n - 1 - r) as nat);
        lemma_div_denominator(2 * w + b, 2, d);
        assert((2 * w + b) / 2 == w);
        assert(pow2((n - 1 - r) as nat) as int == 2 * d);
        assert(x / (2 * d) == w / d);
    }
}

/// The lowest bit of a word is its remainder on division by two.
proof fn lemma_low_bit(x: u32)
    by (bit_vector)
    ensures
        x & 1 == x % 2,
{
}

/// A bit of a word, counted from the top, as a digit.
pub proof fn lemma_word_bit(w: u32, r: int)
    requires
        0 <= r < 32,
    ensures
        word_bit(w, r) == ((w as int / pow2((31 - r) as nat) as int) % 2 == 1),
{
    let k = (31 - r) as u32;
    lemma_u32_shr_is_div(w, k);
    lemma_low_bit(w >> k);
}

/// Word `i` of the code region of a stream is word `i` of the stream.
pub proof fn lemma_word_at_packed(bits: Seq<bool>, i: int)
    requires
        0 <= i < word_count(bits.len()),
    ensures
        word_at(packed(bits), i) == word_of(bits, i),
{
    lemma_auto_spec_u32_to_from_le_bytes();
    let w = word_of(bits, i);
    let code = packed(bits);
    assert(code.subrange(4 * i, 4 * i + 4) =~= spec_u32_to_le_bytes(w)) by {
        assert forall|j: int| 0 <= j < 4 implies code.subrange(4 * i, 4 * i + 4)[j]
            == spec_u32_to_le_bytes(w)[j] by {
            assert((4 * i + j) / 4 == i);
            assert((4 * i + j) % 4 == j);
        }
    }
}

/// Packing a stream and unpacking its code region gives the stream back.
pub proof fn lemma_unpack_packed(bits: Seq<bool>)
    ensures
        unpacked(packed(bits), trailing_bits(bits.len())) == bits,
{
    lemma_bit_accounting(bits);
    let code = packed(bits);
    let u = unpacked(code, trailing_bits(bits.len()));
    assert(u.len() == bits.len());
    assert forall|j: int| 0 <= j < bits.len() implies u[j] == bits[j] by {
        let i = j / 32;
        let r = j % 32;
        lemma_word_at_packed(bits, i);
        let w = word_of(bits, i);
        lemma_word_bit(w, r);
        lemma_window_bound(bits, 32 * i, 32);
        lemma2_to64();
        lemma_window_digit(bits, 32 * i, 32, r);
        assert(32 * i + r == j);
    }
    assert(u =~= bits);
}

/// Shifting a word with a free top bit up by one and taking a bit in at
/// the bottom doubles it and adds the bit.
pub proof fn lemma_shift_in(x: u32, bit: u32)
    by (bit_vector)
    requires
        x < 0x8000_0000,
        bit <= 1,
    ensures
        (x << 1) | bit == 2 * x + bit,
{
}

/// The lowest bit of a word is zero or one.
proof fn lemma_one_bit(x: u32)
    by (bit_vector)
    ensures
        x & 1 <= 1,
{
}

/// The bytes of one more word stand behind those of the words before it.
pub proof fn lemma_bytes_of_words_push(words: Seq<u32>, w: u32)
    ensures
        bytes_of_words(words.push(w)) == bytes_of_words(words) + spec_u32_to_le_bytes(w),
{
    lemma_auto_spec_u32_to_from_le_bytes();
    let a = bytes_of_words(words.push(w));
    let b = bytes_of_words(words) + spec_u32_to_le_bytes(w);
    assert(a.len() == b.len());
    assert forall|j: int| 0 <= j < a.len() implies a[j] == b[j] by {
        if j < 4 * words.len() {
            assert(words.push(w)[j / 4] == words[j / 4]);
        } else {
            assert(j / 4 == words.len());
            assert(j % 4 == j - 4 * words.len());
        }
    }
    assert(a =~= b);
}

/// The full words of a stream stay as they are when the stream grows.
pub proof fn lemma_words_of_push(bits: Seq<bool>, b: bool, n: nat)
    requires
        32 * n <= bits.len(),
    ensures
        words_of(bits.push(b), n) == words_of(bits, n),
{
    let t = bits.push(b);
    assert forall|i: int| 0 <= i < n implies word_of(t, i) == word_of(bits, i) by {
        assert forall|j: int| 32 * i <= j < 32 * i + 32 implies #[trigger] bit_at(t, j) == bit_at(
            bits,
            j + (32 * i - 32 * i),
        ) by {
            assert(t[j] == bits[j]);
        }
        lemma_window_agree(t, bits, 32 * i, 32 * i, 32);
    }
    assert(words_of(t, n) =~= words_of(bits, n));
}

/// Gathers bits into 32-bit words and writes each full word out as four
/// bytes, the lowest first.
pub struct BitSink {
    /// The bits of the word that is being filled, the latest one lowest.
    pub value: u32,
    /// How many bits of that word are in.
    pub value_shifts: u32,
    /// The bytes of the words that are full.
    pub output: Vec<u8>,
    /// All bits taken so far.
    pub bits: Ghost<Seq<bool>>,
}

impl View for BitSink {
    type V = Seq<bool>;

    open spec fn view(&self) -> Seq<bool> {
        self.bits@
    }
}

impl BitSink {
    /// The word in the making holds the bits behind the last full word,
    /// and the output holds the full words.
    pub open spec fn wf(&self) -> bool {
        let n = self@.len();
        &&& self.value_shifts == n % 32
        &&& self.value == window(self@, 32 * (n / 32) as int, self.value_shifts as int)
        &&& self.output@ == bytes_of_words(words_of(self@, n / 32))
    }

    /// A sink that has taken no bit.
    pub fn new() -> (r: Self)
        ensures
            r.wf(),
            r@ == Seq::<bool>::empty(),
    {
        let r = BitSink {
            value: 0,
            value_shifts: 0,
            output: Vec::new(),
            bits: Ghost(Seq::empty()),
        };
        assert(r.output@ =~= bytes_of_words(words_of(r@, 0)));
        r
    }

    /// Takes one bit. The word that it fills is written out at once.
    pub fn add_bit_to_value(&mut self, bit: u32)
        requires
            old(self).wf(),
            bit <= 1,
        ensures
            final(self).wf(),
            final(self)@ == old(self)@.push(bit == 1),
    {
        let ghost before = self@;
        let ghost n = before.len();
        let ghost start: int = 32 * (n / 32) as int;
        proof {
            lemma_window_bound(before, start, self.value_shifts as int);
            lemma2_to64();
            if self.value_shifts < 31 {
                vstd::arithmetic::power2::lemma_pow2_strictly_increases(
                    self.value_shifts as nat,
                    31,
                );
            }
            lemma_shift_in(self.value, bit);
            lemma_window_push(before, bit == 1, start, self.value_shifts as int);
            lemma_words_of_push(before, bit == 1, n / 32);
        }
        self.value = (self.value << 1) | bit;
        self.value_shifts += 1;
        self.bits = Ghost(before.push(bit == 1));
        if self.value_shifts == 32 {
            self.write_value();
            proof {
                lemma_bytes_of_words_push(words_of(self@, n / 32), self.value);
                assert(words_of(self@, n / 32).push(self.value) =~= words_of(
                    self@,
                    (n / 32 + 1) as nat,
                ));
            }
            self.value = 0;
            self.value_shifts = 0;
        }
    }

    /// Writes the word out as four bytes, the lowest first.
    fn write_value(&mut self)
        ensures
            final(self).output@ == old(self).output@ + spec_u32_to_le_bytes(old(self).value),
            final(self).value == old(self).value,
            final(self).value_shifts == old(self).value_shifts,
            final(self).bits == old(self).bits,
    {
        let mut value_buffer = u32_to_le_bytes(self.value);
        self.output.append(&mut value_buffer);
    }

    /// Ends the stream: a word that is partly filled is shifted up, filled
    /// with zeros and written out, so that the output is the code region of
    /// all bits taken. Gives the number of bits in use in its last word.
    pub fn finish(&mut self) -> (trailing: u8)
        requires
            old(self).wf(),
        ensures
            final(self).output@ == packed(old(self)@),
            final(self)@ == old(self)@,
            trailing == trailing_bits(old(self)@.len()),
    {
        let ghost n = self@.len();
        if self.value_shifts == 0 {
            32
        } else {
            let trailing = self.value_shifts as u8;
            proof {
                let start: int = 32 * (n / 32) as int;
                let k = self.value_shifts as int;
                lemma_window_bound(self@, start, k);
                lemma_window_pad(self@, start, k, 32 - k);
                lemma_window_bound(self@, start, 32);
                lemma2_to64();
                lemma_u32_shl_is_mul(self.value, (32 - self.value_shifts) as u32);
                lemma_bytes_of_words_push(words_of(self@, n / 32), word_of(self@, (n / 32) as int));
                assert(words_of(self@, n / 32).push(word_of(self@, (n / 32) as int)) =~= words_of(
                    self@,
                    word_count(n),
                ));
            }
            self.value = self.value << (32 - self.value_shifts);
            self.write_value();
            trailing
        }
    }
}

/// Serves the bits of a code region, the top bit of each word first, and
/// zeros once the region is used up.
pub struct BitSource {
    /// The word that bits are being served from.
    pub value: u32,
    /// Number of words in the code region.
    pub value_count: u64,
    /// Number of bits in use in the last word.
    pub last_value_shifts: u32,
    /// Number of bits served so far.
    pub position: u64,
}

impl BitSource {
    /// The code region: the first `4 * value_count` bytes of the input.
    pub open spec fn code(&self, input: Seq<u8>) -> Seq<u8> {
        input.subrange(0, 4 * self.value_count)
    }

    /// The bits that the code region holds.
    pub open spec fn stream(&self, input: Seq<u8>) -> Seq<bool> {
        unpacked(self.code(input), self.last_value_shifts as nat)
    }

    /// The code region lies within the input, between one and 32 bits of
    /// its last word are in use, and within a word the word at hand is the
    /// one that holds the next bit.
    pub open spec fn wf(&self, input: Seq<u8>) -> bool {
        &&& 4 * self.value_count <= input.len()
        &&& 1 <= self.last_value_shifts <= 32
        &&& self.position % 32 != 0 && self.position / 32 < self.value_count ==> self.value
            == word_at(self.code(input), (self.position / 32) as int)
    }

    /// A source for a code region of `value_count` words, of whose last
    /// word `last_value_shifts` bits are in use. No bit is served yet.
    pub fn new(value_count: u64, last_value_shifts: u32) -> (r: Self)
        ensures
            r.value == 0,
            r.value_count == value_count,
            r.last_value_shifts == last_value_shifts,
            r.position == 0,
    {
        BitSource { value: 0, value_count, last_value_shifts, position: 0 }
    }

    /// Whether the word that holds the next bit is the last one.
    fn is_last_value(&self) -> (r: bool)
        ensures
            r == (self.position / 32 + 1 == self.value_count),
    {
        self.value_count > 0 && self.position / 32 == self.value_count - 1
    }

    /// Takes the word that holds the next bit from the code region.
    fn read_value(&mut self, input: &Vec<u8>)
        requires
            4 * old(self).value_count <= input@.len(),
            old(self).position / 32 < old(self).value_count,
        ensures
            final(self).value == word_at(old(self).code(input@), (old(self).position / 32) as int),
            final(self).value_count == old(self).value_count,
            final(self).last_value_shifts == old(self).last_value_shifts,
            final(self).position == old(self).position,
    {
        let len = input.len();
        let first: usize = ((self.position / 32) * 4) as usize;
        assert(first + 4 <= len);
        let value_buffer = slice_subrange(input.as_slice(), first, first + 4);
        assert(value_buffer@ =~= self.code(input@).subrange(first as int, first + 4));
        self.value = u32_from_le_bytes(value_buffer);
    }

    /// Serves the next bit.
    pub fn get_bit_from_value(&mut self, input: &Vec<u8>) -> (bit: u32)
        requires
            old(self).wf(input@),
            old(self).position < u64::MAX,
        ensures
            final(self).wf(input@),
            bit == bit_at(old(self).stream(input@), old(self).position as int),
            final(self).position == old(self).position + 1,
            final(self).value_count == old(self).value_count,
            final(self).last_value_shifts == old(self).last_value_shifts,
    {
        let index = self.position / 32;
        let place: u32 = (self.position % 32) as u32;
        let served: bool = index < self.value_count && (!self.is_last_value() || place
            < self.last_value_shifts);
        if !served {
            self.position += 1;
            return 0;
        }
        if place == 0 {
            self.read_value(input);
        }
        proof {
            lemma_one_bit(self.value >> ((31 - place) as u32));
        }
        let bit = (self.value >> (31 - place)) & 1;
        self.position += 1;
        bit
    }
}

} // verus!
