//! Writing H.264 syntax elements bit by bit.
//!
//! Everything written is described as a sequence of bits, first bit first.

use vstd::arithmetic::power2::{lemma2_to64, lemma_pow2_pos, lemma_pow2_unfold, pow2};
use vstd::prelude::*;

verus! {

/// The `count` low bits of `value`, most significant first.
pub open spec fn be_bits(value: nat, count: nat) -> Seq<bool>
    decreases count,
{
    if count == 0 {
        Seq::empty()
    } else {
        be_bits(value / 2, (count - 1) as nat).push(value % 2 == 1)
    }
}

/// The number whose binary digits are `bits`, most significant first.
pub open spec fn bits_value(bits: Seq<bool>) -> nat
    decreases bits.len(),
{
    if bits.len() == 0 {
        0
    } else {
        2 * bits_value(bits.drop_last()) + if bits.last() {
            1nat
        } else {
            0nat
        }
    }
}

/// The bits of a byte string, each byte most significant bit first.
pub open spec fn bits_of_bytes(bytes: Seq<u8>) -> Seq<bool>
    decreases bytes.len(),
{
    if bytes.len() == 0 {
        Seq::empty()
    } else {
        bits_of_bytes(bytes.drop_last()) + be_bits(bytes.last() as nat, 8)
    }
}

/// The byte string that spells `bits`, eight to the byte.
pub open spec fn pack_bits(bits: Seq<bool>) -> Seq<u8> {
    Seq::new(bits.len() / 8, |i: int| bits_value(bits.subrange(8 * i, 8 * i + 8)) as u8)
}

/// `count` zero bits.
pub open spec fn zero_bits(count: nat) -> Seq<bool> {
    Seq::new(count, |i: int| false)
}

/// The number of binary digits of `value`; zero has none.
pub open spec fn bit_length(value: nat) -> nat
    decreases value,
{
    if value == 0 {
        0
    } else {
        bit_length(value / 2) + 1
    }
}

/// The Exp-Golomb code of `value`: as many zeros as `value + 1` has digits after the first, and
/// then those digits.
pub open spec fn ue_bits(value: nat) -> Seq<bool> {
    let digits = bit_length(value + 1);
    zero_bits((digits - 1) as nat) + be_bits(value + 1, digits)
}

/// The unsigned number that stands for the signed `value`: 0, 1, -1, 2, -2, ... count up from
/// zero.
pub open spec fn se_code(value: int) -> nat {
    if value <= 0 {
        (-2 * value) as nat
    } else {
        (2 * value - 1) as nat
    }
}

/// The signed Exp-Golomb code of `value`.
pub open spec fn se_bits(value: int) -> Seq<bool> {
    ue_bits(se_code(value))
}

/// `bits` closed by a one and as many zeros as it takes to fill the last byte.
pub open spec fn with_trailing_bits(bits: Seq<bool>) -> Seq<bool> {
    bits.push(true) + zero_bits(((8 - (bits.len() + 1) % 8) % 8) as nat)
}

/// How many zero bits `bits` starts with.
pub open spec fn leading_zero_bits(bits: Seq<bool>) -> nat
    decreases bits.len(),
{
    if bits.len() == 0 || bits[0] {
        0
    } else {
        leading_zero_bits(bits.drop_first()) + 1
    }
}

/// Reads one Exp-Golomb code off the front of `bits`: its value and the number of bits it takes.
pub open spec fn read_ue(bits: Seq<bool>) -> (int, nat) {
    let zeros = leading_zero_bits(bits);
    (
        bits_value(bits.subrange(zeros as int, 2 * zeros as int + 1)) - 1,
        2 * zeros + 1,
    )
}

pub proof fn lemma_be_bits_len(value: nat, count: nat)
    ensures
        be_bits(value, count).len() == count,
    decreases count,
{
    if count > 0 {
        lemma_be_bits_len(value / 2, (count - 1) as nat);
    }
}

pub proof fn lemma_bits_of_bytes_len(bytes: Seq<u8>)
    ensures
        bits_of_bytes(bytes).len() == 8 * bytes.len(),
    decreases bytes.len(),
{
    if bytes.len() > 0 {
        lemma_bits_of_bytes_len(bytes.drop_last());
        lemma_be_bits_len(bytes.last() as nat, 8);
    }
}

/// A number that fits in `count` binary digits is read back from them.
pub proof fn lemma_bits_value_of_be_bits(value: nat, count: nat)
    requires
        value < pow2(count),
    ensures
        bits_value(be_bits(value, count)) == value,
    decreases count,
{
    if count == 0 {
        lemma2_to64();
    } else {
        lemma_pow2_unfold(count);
        lemma_bits_value_of_be_bits(value / 2, (count - 1) as nat);
        let bits = be_bits(value, count);
        assert(bits.drop_last() =~= be_bits(value / 2, (count - 1) as nat));
    }
}

/// Packing undoes spelling out: a byte string is recovered from its bits.
pub proof fn lemma_pack_bits_of_bytes(bytes: Seq<u8>)
    ensures
        pack_bits(bits_of_bytes(bytes)) == bytes,
    decreases bytes.len(),
{
    let bits = bits_of_bytes(bytes);
    lemma_bits_of_bytes_len(bytes);
    if bytes.len() > 0 {
        let init = bytes.drop_last();
        let init_bits = bits_of_bytes(init);
        lemma_bits_of_bytes_len(init);
        lemma_pack_bits_of_bytes(init);
        assert forall|i: int| 0 <= i < bytes.len() implies pack_bits(bits)[i] == bytes[i] by {
            if i < init.len() {
                assert(bits.subrange(8 * i, 8 * i + 8) =~= init_bits.subrange(8 * i, 8 * i + 8));
                assert(pack_bits(init_bits)[i] == init[i]);
            } else {
                lemma_be_bits_len(bytes.last() as nat, 8);
                assert(bits.subrange(8 * i, 8 * i + 8) =~= be_bits(bytes.last() as nat, 8));
                lemma2_to64();
                lemma_bits_value_of_be_bits(bytes.last() as nat, 8);
            }
        }
    }
    assert(pack_bits(bits) =~= bytes);
}

proof fn lemma_bit_length_bounds(value: nat, digits: nat)
    requires
        digits > 0,
        pow2((digits - 1) as nat) <= value < pow2(digits),
    ensures
        bit_length(value) == digits,
    decreases digits,
{
    lemma_pow2_unfold(digits);
    lemma_pow2_pos((digits - 1) as nat);
    if digits == 1 {
        lemma2_to64();
        assert(value == 1);
        assert(bit_length(0) == 0);
        assert(value / 2 == 0);
    } else {
        lemma_pow2_unfold((digits - 1) as nat);
        lemma_bit_length_bounds(value / 2, (digits - 1) as nat);
    }
}

proof fn lemma_bit_length_range(value: nat)
    requires
        value > 0,
    ensures
        bit_length(value) > 0,
        pow2((bit_length(value) - 1) as nat) <= value < pow2(bit_length(value)),
    decreases value,
{
    if value == 1 {
        assert(bit_length(0) == 0);
        assert(value / 2 == 0);
        lemma2_to64();
    } else {
        lemma_bit_length_range(value / 2);
        lemma_pow2_unfold(bit_length(value));
        lemma_pow2_unfold((bit_length(value) - 1) as nat);
    }
}

proof fn lemma_first_bit(value: nat)
    requires
        value > 0,
    ensures
        be_bits(value, bit_length(value)).len() > 0,
        be_bits(value, bit_length(value))[0],
    decreases value,
{
    lemma_be_bits_len(value, bit_length(value));
    if value == 1 {
        assert(value / 2 == 0);
        assert(bit_length(0) == 0);
        assert(be_bits(0, 0).len() == 0);
    } else {
        lemma_first_bit(value / 2);
        assert(be_bits(value, bit_length(value))[0] == be_bits(value / 2, bit_length(value / 2))[0]);
    }
}

proof fn lemma_leading_zeros(count: nat, rest: Seq<bool>)
    requires
        rest.len() > 0,
        rest[0],
    ensures
        leading_zero_bits(zero_bits(count) + rest) == count,
    decreases count,
{
    let bits = zero_bits(count) + rest;
    if count == 0 {
        assert(bits =~= rest);
    } else {
        assert(bits.drop_first() =~= zero_bits((count - 1) as nat) + rest);
        lemma_leading_zeros((count - 1) as nat, rest);
    }
}

/// Exp-Golomb codes are self-delimiting: whatever follows a code, reading from its first bit gives
/// back the value that was written and stops exactly where the code ends.
pub proof fn lemma_ue_round_trip(value: nat, rest: Seq<bool>)
    ensures
        read_ue(ue_bits(value) + rest) == (value as int, ue_bits(value).len()),
{
    let digits = bit_length(value + 1);
    let code = be_bits(value + 1, digits);
    let bits = ue_bits(value) + rest;
    lemma_bit_length_range(value + 1);
    lemma_be_bits_len(value + 1, digits);
    lemma_first_bit(value + 1);
    assert(bits =~= zero_bits((digits - 1) as nat) + (code + rest));
    lemma_leading_zeros((digits - 1) as nat, code + rest);
    assert(bits.subrange(digits - 1, 2 * digits - 1) =~= code);
    lemma_bits_value_of_be_bits(value + 1, digits);
}

/// The unsigned numbers that stand for signed ones name each exactly once.
pub proof fn lemma_se_code_injective(a: int, b: int)
    requires
        se_code(a) == se_code(b),
    ensures
        a == b,
{
}

/// Collects bits into bytes.
pub struct BitWriter {
    bytes: Vec<u8>,
    byte: u8,
    used: u8,
}

impl BitWriter {
    /// The bits written so far.
    pub closed spec fn written(self) -> Seq<bool> {
        bits_of_bytes(self.bytes@) + be_bits(self.byte as nat, self.used as nat)
    }

    /// Fewer than eight bits wait for their byte to fill.
    pub closed spec fn wf(self) -> bool {
        &&& self.used < 8
        &&& self.byte < pow2(self.used as nat)
    }

    pub fn new() -> (r: Self)
        ensures
            r.wf(),
            r.written() == Seq::<bool>::empty(),
    {
        proof {
            lemma2_to64();
        }
        BitWriter { bytes: Vec::new(), byte: 0, used: 0 }
    }

    /// Writes one bit.
    pub fn bit(&mut self, value: bool)
        requires
            old(self).wf(),
        ensures
            final(self).wf(),
            final(self).written() == old(self).written().push(value),
    {
        let byte: u8 = self.byte;
        proof {
            lemma2_to64();
            lemma_pow2_unfold((self.used + 1) as nat);
            assert(byte < 128) by {
                let used = self.used;
                if used < 7 {
                    vstd::arithmetic::power2::lemma_pow2_strictly_increases(used as nat, 7);
                }
            }
            assert(byte < 128 ==> (byte << 1) | 1 == 2 * byte + 1) by (bit_vector);
            assert(byte < 128 ==> (byte << 1) | 0 == 2 * byte) by (bit_vector);
        }
        let low: u8 = if value {
            1
        } else {
            0
        };
        let grown: u8 = (byte << 1) | low;
        assert(be_bits(grown as nat, (self.used + 1) as nat) == be_bits(
            byte as nat,
            self.used as nat,
        ).push(value));
        self.byte = grown;
        self.used = self.used + 1;
        if self.used == 8 {
            let ghost before = self.bytes@;
            self.bytes.push(self.byte);
            assert(self.bytes@.drop_last() =~= before);
            self.byte = 0;
            self.used = 0;
            assert(be_bits(0, 0) =~= Seq::<bool>::empty());
        }
        assert(self.written() =~= old(self).written().push(value));
    }

    /// Writes the `count` low bits of `value`, most significant first.
    pub fn bits(&mut self, value: u32, count: u8)
        requires
            old(self).wf(),
            count <= 32,
        ensures
            final(self).wf(),
            final(self).written() == old(self).written() + be_bits(value as nat, count as nat),
    {
        let ghost start = self.written();
        let mut shift: u8 = count;
        assert(be_bits((value >> shift) as nat, 0) =~= Seq::<bool>::empty());
        assert(self.written() =~= start + be_bits((value >> shift) as nat, 0));
        while shift > 0
            invariant
                shift <= count <= 32,
                self.wf(),
                self.written() == start + be_bits((value >> shift) as nat, (count - shift) as nat),
            decreases shift,
        {
            let ghost above = shift;
            shift = shift - 1;
            assert((value >> shift) / 2 == value >> above) by (bit_vector)
                requires
                    shift < 32,
                    above == shift + 1,
            ;
            assert((value >> shift) & 1 == (value >> shift) % 2) by (bit_vector);
            let set: bool = ((value >> shift) & 1) != 0;
            self.bit(set);
            assert(be_bits((value >> shift) as nat, (count - shift) as nat) == be_bits(
                ((value >> shift) as nat) / 2,
                (count - shift - 1) as nat,
            ).push(set));
            assert(self.written() =~= start + be_bits(
                (value >> shift) as nat,
                (count - shift) as nat,
            ));
        }
        assert(value >> 0u8 == value) by (bit_vector);
    }

    /// Writes `value` as an unsigned Exp-Golomb code.
    pub fn ue(&mut self, value: u32)
        requires
            old(self).wf(),
            value < u32::MAX,
        ensures
            final(self).wf(),
            final(self).written() == old(self).written() + ue_bits(value as nat),
    {
        let ghost start = self.written();
        let code: u32 = value + 1;
        let digits: u32 = 32 - code.leading_zeros();
        proof {
            lemma_digit_count(code);
        }
        let mut done: u32 = 0;
        assert(self.written() =~= start + zero_bits(0));
        while done < digits - 1
            invariant
                1 <= digits <= 32,
                done <= digits - 1,
                self.wf(),
                self.written() == start + zero_bits(done as nat),
            decreases digits - done,
        {
            self.bit(false);
            done = done + 1;
            assert(self.written() =~= start + zero_bits(done as nat));
        }
        self.bits(code, digits as u8);
        assert(self.written() =~= start + ue_bits(value as nat));
    }

    /// Writes `value` as a signed Exp-Golomb code.
    pub fn se(&mut self, value: i32)
        requires
            old(self).wf(),
            value > i32::MIN,
        ensures
            final(self).wf(),
            final(self).written() == old(self).written() + se_bits(value as int),
    {
        let code: u32 = if value <= 0 {
            ((-value) as u32) * 2
        } else {
            value as u32 * 2 - 1
        };
        self.ue(code);
    }

    /// Closes the payload with its trailing bits and hands out the bytes.
    pub fn finish_rbsp(self) -> (r: Vec<u8>)
        requires
            self.wf(),
        ensures
            r@ == pack_bits(with_trailing_bits(self.written())),
    {
        let mut writer = self;
        let ghost start = self.written();
        proof {
            lemma_written_len(writer);
        }
        writer.bit(true);
        let ghost mut padding: nat = 0;
        assert(writer.written() =~= start.push(true) + zero_bits(0));
        proof {
            lemma_written_len(writer);
        }
        while writer.used != 0
            invariant
                writer.wf(),
                writer.written() == start.push(true) + zero_bits(padding),
                writer.used == (start.len() + 1 + padding) % 8,
                padding < 8,
                writer.used == 0 ==> padding == (8 - (start.len() + 1) % 8) % 8,
                writer.used != 0 ==> writer.used == (start.len() + 1) % 8 + padding,
                writer.used != 0 ==> (start.len() + 1) % 8 > 0,
            decreases (8 - writer.used) % 8,
        {
            writer.bit(false);
            proof {
                padding = padding + 1;
                assert(writer.written() =~= start.push(true) + zero_bits(padding));
                lemma_written_len(writer);
            }
        }
        proof {
            assert(writer.written() =~= bits_of_bytes(writer.bytes@));
            lemma_pack_bits_of_bytes(writer.bytes@);
        }
        writer.bytes
    }
}

proof fn lemma_written_len(writer: BitWriter)
    requires
        writer.wf(),
    ensures
        writer.written().len() == 8 * writer.bytes@.len() + writer.used,
        writer.used == writer.written().len() % 8,
{
    lemma_bits_of_bytes_len(writer.bytes@);
    lemma_be_bits_len(writer.byte as nat, writer.used as nat);
}

proof fn lemma_digit_count(code: u32)
    requires
        code > 0,
    ensures
        code.leading_zeros() < 32,
        bit_length(code as nat) == 32 - code.leading_zeros(),
{
    let zeros = code.leading_zeros();
    vstd::std_specs::bits::axiom_u32_leading_zeros(code);
    lemma2_to64();
    let digits = (32 - zeros) as u32;
    let top = (31 - zeros) as u32;
    vstd::bits::lemma_u32_shr_is_div(code, top);
    let high = code >> top;
    assert(high & 1 != 0 ==> high >= 1) by (bit_vector);
    lemma_pow2_pos(top as nat);
    assert(code as nat >= pow2(top as nat)) by {
        vstd::arithmetic::div_mod::lemma_fundamental_div_mod(code as int, pow2(top as nat) as int);
        assert(pow2(top as nat) * (code as int / pow2(top as nat) as int) >= pow2(top as nat))
            by (nonlinear_arith)
            requires
                code as int / pow2(top as nat) as int >= 1,
                pow2(top as nat) > 0,
        ;
        vstd::arithmetic::div_mod::lemma_mod_bound(code as int, pow2(top as nat) as int);
    }
    if digits < 32 {
        vstd::bits::lemma_u32_shr_is_div(code, digits);
        lemma_pow2_pos(digits as nat);
        vstd::arithmetic::div_mod::lemma_fundamental_div_mod(
            code as int,
            pow2(digits as nat) as int,
        );
        vstd::arithmetic::div_mod::lemma_mod_bound(code as int, pow2(digits as nat) as int);
        assert(pow2(digits as nat) * 0 == 0);
    }
    lemma_bit_length_bounds(code as nat, digits as nat);
}

/// Bits stand most significant first: bit `i` of `count` is worth two to the power of the number of
/// bits after it.
pub proof fn lemma_bits_stand_most_significant_first(value: nat, count: nat, i: int)
    requires
        0 <= i < count,
    ensures
        be_bits(value, count).len() == count,
        be_bits(value, count)[i] <==> (value / pow2((count - 1 - i) as nat)) % 2 == 1,
    decreases count,
{
    lemma_be_bits_len(value, count);
    lemma_be_bits_len(value / 2, (count - 1) as nat);
    if i == count - 1 {
        lemma2_to64();
        assert(value / 1 == value);
    } else {
        lemma_bits_stand_most_significant_first(value / 2, (count - 1) as nat, i);
        let rest = (count - 2 - i) as nat;
        lemma_pow2_unfold((rest + 1) as nat);
        lemma_pow2_pos(rest);
        vstd::arithmetic::div_mod::lemma_div_denominator(value as int, 2, pow2(rest) as int);
    }
}

/// The first of several binary digits counts for two to the power of the number of the others.
pub proof fn lemma_first_digit_counts_most(first: bool, rest: Seq<bool>)
    ensures
        bits_value(seq![first] + rest) == bits_value(rest) + if first {
            pow2(rest.len())
        } else {
            0
        },
    decreases rest.len(),
{
    let bits = seq![first] + rest;
    if rest.len() == 0 {
        lemma2_to64();
        assert(bits.drop_last() =~= Seq::<bool>::empty());
        assert(bits_value(bits.drop_last()) == 0);
    } else {
        assert(bits.drop_last() =~= seq![first] + rest.drop_last());
        lemma_first_digit_counts_most(first, rest.drop_last());
        lemma_pow2_unfold(rest.len());
    }
}

/// The Exp-Golomb code of a number for which `value + 1` has `zeros + 1` binary digits is that many
/// zeros and these digits; so it has `2 zeros + 1` bits, and shorter codes stand for smaller numbers.
pub proof fn lemma_ue_code(value: nat, zeros: nat)
    requires
        pow2(zeros) <= value + 1 < pow2(zeros + 1),
    ensures
        ue_bits(value).len() == 2 * zeros + 1,
        forall|i: int| 0 <= i < zeros ==> !(#[trigger] ue_bits(value)[i]),
        ue_bits(value)[zeros as int],
        bits_value(ue_bits(value).skip(zeros as int)) == value + 1,
{
    lemma_bit_length_bounds(value + 1, zeros + 1);
    let code = be_bits(value + 1, zeros + 1);
    lemma_be_bits_len(value + 1, zeros + 1);
    lemma_first_bit(value + 1);
    lemma_bits_value_of_be_bits(value + 1, zeros + 1);
    assert(ue_bits(value).skip(zeros as int) =~= code);
    assert(ue_bits(value)[zeros as int] == code[0]);
}

/// A positive number stands at an odd place, twice as far along, and its negative right after it.
pub proof fn lemma_signed_codes_alternate(value: nat)
    ensures
        value > 0 ==> se_bits(value as int) == ue_bits((2 * value - 1) as nat),
        se_bits(-(value as int)) == ue_bits((2 * value) as nat),
{
}

} // verus!
