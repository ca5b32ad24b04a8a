use crate::decoder::{dec_sym_model, RansDecSymbol, RansDecoder, RansDecoderMulti};
use crate::model::{
    bytes_le_units, dec_init, dec_renorm, dec_step, le_value, lemma_byte_seq_value4,
    lemma_bytes_le_units_index, CoderModel,
};
use crate::mut_cow::MutCow;
use vstd::arithmetic::div_mod::{lemma_fundamental_div_mod, lemma_mod_sub_multiples_vanish};
use vstd::arithmetic::power2::{
    lemma2_to64, lemma2_to64_rest, lemma_pow2_strictly_increases, pow2,
};
use vstd::bits::{
    lemma_u32_shl_is_mul, lemma_u64_low_bits_mask_is_mod, lemma_u64_shl_is_mul,
    lemma_u64_shr_is_div, low_bits_mask,
};
use vstd::prelude::*;

verus! {

/// The 64-bit variant's normalization floor: `1 << 31`.
const RANS64_L: u64 = 0x8000_0000;

/// Multi-stream interleaved rANS decoder - 64-bit version.
#[derive(Debug)]
pub struct B64RansDecoderMulti<'a, const N: usize> {
    states: Vec<u64>,
    data: MutCow<'a>,
    pos: usize,
}

/// Single-stream rANS decoder - 64-bit version.
pub type B64RansDecoder<'a> = B64RansDecoderMulti<'a, 1>;

impl<'a, const N: usize> B64RansDecoderMulti<'a, N> {
    /// Creates a new `B64RansDecoderMulti` instance with given `data`:
    /// reads two 32-bit little-endian units per channel, channels in
    /// ascending order, least significant unit first, to seed the channel
    /// states.
    pub fn new(data: MutCow<'a>) -> (r: Self)
        requires
            N >= 1,
            N * 8 <= data@.len(),
        ensures
            r.inv(),
            r.coder() == dec_init(bytes_le_units(data@, 4), N as nat, 32, 2),
    {
        let ghost units = bytes_le_units(data@, 4);
        proof {
            lemma2_to64();
            lemma2_to64_rest();
        }
        let total = data.len();
        let mut states: Vec<u64> = Vec::new();
        let mut pos: usize = 0;
        let mut c: usize = 0;
        while c < N
            invariant
                c <= N,
                N * 8 <= data@.len(),
                data@.len() == total,
                pos == c * 8,
                states@.len() == c,
                units == bytes_le_units(data@, 4),
                forall|i: int|
                    0 <= i < c ==> #[trigger] states@[i] as nat == le_value(
                        units.subrange(i * 2, (i + 1) * 2),
                        32,
                    ),
            decreases N - c,
        {
            proof {
                assert(c * 8 + 8 <= N * 8 && (c + 1) * 8 == c * 8 + 8 && (2 * c + 1 + 1) * 4 == c
                    * 8 + 8 && 2 * c * 4 == c * 8 && (2 * c + 1) * 4 == c * 8 + 4 && (c + 1) * 2
                    == 2 * c + 2) by (nonlinear_arith)
                    requires
                        c < N,
                ;
            }
            let u0 = read_word(&data, pos);
            let u1 = read_word(&data, pos + 4);
            proof {
                lemma2_to64();
                lemma2_to64_rest();
                lemma_u64_shl_is_mul(u1 as u64, 32);
                lemma_bytes_le_units_index(data@, 4, 2 * c as int);
                lemma_bytes_le_units_index(data@, 4, 2 * c as int + 1);
                lemma_byte_seq_value4(data@.subrange(2 * c as int * 4, (2 * c as int + 1) * 4));
                lemma_byte_seq_value4(
                    data@.subrange((2 * c as int + 1) * 4, (2 * c as int + 1 + 1) * 4),
                );
                assert(data@.subrange(pos as int, pos as int + 4) =~= data@.subrange(
                    2 * c as int * 4,
                    (2 * c as int + 1) * 4,
                ));
                assert(data@.subrange(pos as int + 4, pos as int + 8) =~= data@.subrange(
                    (2 * c as int + 1) * 4,
                    (2 * c as int + 1 + 1) * 4,
                ));
                assert(units[2 * c as int] == u0 as nat);
                assert(units[2 * c as int + 1] == u1 as nat);
            }
            let x = (u0 as u64) + ((u1 as u64) << 32);
            states.push(x);
            proof {
                let group = units.subrange(c as int * 2, (c as int + 1) * 2);
                reveal_with_fuel(le_value, 3);
                assert(group.len() == 2);
                assert(c as int * 2 == 2 * c as int && c as int * 2 + 1 == 2 * c as int + 1)
                    by (nonlinear_arith);
                assert(group[0] == u0 as nat && group[1] == u1 as nat);
                assert(group.drop_first() =~= units.subrange(c as int * 2 + 1, c as int * 2 + 2));
                assert(group.drop_first().drop_first() =~= Seq::<nat>::empty());
                assert(le_value(group, 32) == u0 as nat + pow2(32) * (u1 as nat + pow2(32) * 0));
                assert(x as nat == le_value(group, 32));
            }
            pos = pos + 8;
            c = c + 1;
        }
        let r = B64RansDecoderMulti { states, data, pos };
        proof {
            assert(r.coder().states =~= dec_init(units, N as nat, 32, 2).states);
            assert(r.coder().stream =~= dec_init(units, N as nat, 32, 2).stream) by {
                lemma_bytes_units_suffix(r.data@, r.pos as int);
                assert(N as int * 2 * 4 == N as int * 8 && (N as int * 2 + 1) * 4 == N as int * 8
                    + 4) by (nonlinear_arith);
                assert(bytes_le_units(r.data@.skip(r.pos as int), 4) =~= units.skip(
                    N as int * 2,
                ));
            }
        }
        r
    }
}

/// A grouped byte stream has one unit per four bytes, rounding down.
proof fn lemma_bytes_le_units_len4(s: Seq<u8>)
    ensures
        bytes_le_units(s, 4).len() == s.len() as int / 4,
    decreases s.len(),
{
    if s.len() >= 4 {
        lemma_bytes_le_units_len4(s.skip(4));
        lemma_fundamental_div_mod(s.len() as int, 4);
        vstd::arithmetic::div_mod::lemma_mod_sub_multiples_vanish(s.len() as int, 4);
        vstd::arithmetic::div_mod::lemma_fundamental_div_mod_converse(
            s.len() as int - 4,
            4,
            s.len() as int / 4 - 1,
            s.len() as int % 4,
        );
    } else {
        vstd::arithmetic::div_mod::lemma_basic_div(s.len() as int, 4);
    }
}

/// Regrouping a byte stream after dropping whole groups from the front is
/// the same as dropping those units.
proof fn lemma_bytes_units_suffix(s: Seq<u8>, pos: int)
    requires
        0 <= pos <= s.len(),
        pos % 4 == 0,
    ensures
        bytes_le_units(s.skip(pos), 4) == bytes_le_units(s, 4).skip(pos / 4),
    decreases pos,
{
    if pos == 0 {
        assert(s.skip(0) =~= s);
        assert(bytes_le_units(s, 4).skip(0) =~= bytes_le_units(s, 4));
    } else {
        assert(pos >= 4) by {
            lemma_fundamental_div_mod(pos, 4);
        }
        lemma_mod_sub_multiples_vanish(pos, 4);
        lemma_bytes_le_units_len4(s);
        lemma_bytes_le_units_len4(s.skip(4));
        assert(pos / 4 <= s.len() as int / 4) by {
            vstd::arithmetic::div_mod::lemma_div_is_ordered(pos, s.len() as int, 4);
        }
        lemma_bytes_units_suffix(s.skip(4), pos - 4);
        assert(s.skip(4).skip(pos - 4) =~= s.skip(pos));
        assert(bytes_le_units(s, 4) == seq![
            crate::model::byte_seq_value(s.take(4)),
        ] + bytes_le_units(s.skip(4), 4));
        assert(bytes_le_units(s, 4).skip(pos / 4) =~= bytes_le_units(s.skip(4), 4).skip(
            pos / 4 - 1,
        )) by {
            assert(pos / 4 >= 1 && (pos - 4) / 4 == pos / 4 - 1) by {
                lemma_fundamental_div_mod(pos, 4);
                vstd::arithmetic::div_mod::lemma_fundamental_div_mod_converse(
                    pos - 4,
                    4,
                    pos / 4 - 1,
                    0,
                );
            }
        }
        assert((pos - 4) / 4 == pos / 4 - 1) by {
            lemma_fundamental_div_mod(pos, 4);
            vstd::arithmetic::div_mod::lemma_fundamental_div_mod_converse(
                pos - 4,
                4,
                pos / 4 - 1,
                0,
            );
        }
    }
}

/// Reads one 32-bit little-endian unit from four bytes of a `MutCow`.
fn read_word(data: &MutCow<'_>, i: usize) -> (r: u32)
    requires
        i + 4 <= data@.len(),
        data@.len() <= usize::MAX,
    ensures
        r as nat == crate::model::byte_seq_value(data@.subrange(i as int, i as int + 4)),
{
    let b0 = data.get(i);
    let b1 = data.get(i + 1);
    let b2 = data.get(i + 2);
    let b3 = data.get(i + 3);
    proof {
        lemma2_to64();
        lemma2_to64_rest();
        lemma_u32_shl_is_mul(b1 as u32, 8);
        lemma_u32_shl_is_mul(b2 as u32, 16);
        lemma_u32_shl_is_mul(b3 as u32, 24);
        lemma_byte_seq_value4(data@.subrange(i as int, i as int + 4));
    }
    (b0 as u32) + ((b1 as u32) << 8) + ((b2 as u32) << 16) + ((b3 as u32) << 24)
}

impl<'a, const N: usize> RansDecoderMulti<N> for B64RansDecoderMulti<'a, N> {
    type Symbol = B64RansDecSymbol;

    open spec fn floor_bits() -> nat {
        31
    }

    open spec fn unit_bits() -> nat {
        32
    }

    open spec fn state_bits() -> nat {
        64
    }

    closed spec fn coder(&self) -> CoderModel {
        CoderModel {
            states: self.states@.map_values(|x: u64| x as nat),
            stream: bytes_le_units(
                self.data@.subrange(self.pos as int, self.data@.len() as int),
                4,
            ),
        }
    }

    closed spec fn inv(&self) -> bool {
        &&& self.states@.len() == N
        &&& self.pos <= self.data@.len()
        &&& self.data@.len() <= usize::MAX
    }

    proof fn params_ok() {
        assert(Self::floor_bits() == 31);
        assert(Self::unit_bits() == 32);
        assert(Self::state_bits() == 64);
    }

    proof fn inv_facts(&self) {
        lemma2_to64();
        lemma2_to64_rest();
        let suffix = self.data@.subrange(self.pos as int, self.data@.len() as int);
        lemma_bytes_le_units_bounds(suffix);
        assert(forall|c: int|
            0 <= c < N ==> #[trigger] self.coder().states[c] == self.states@[c] as nat);
        assert(pow2(64) > u64::MAX as nat);
    }

    fn get_at(&mut self, channel: usize, scale_bits: u32) -> (r: u32) {
        let x = self.states[channel];
        proof {
            lemma2_to64();
            lemma2_to64_rest();
            if (scale_bits as nat) < 31 {
                lemma_pow2_strictly_increases(scale_bits as nat, 31);
            }
            lemma_u32_shl_is_mul(1u32, scale_bits);
            lemma_u64_low_bits_mask_is_mod(x, scale_bits as nat);
            assert(((1u32 << scale_bits) - 1) as u64 == low_bits_mask(scale_bits as nat) as u64);
        }
        (x & (((1u32 << scale_bits) - 1) as u64)) as u32
    }

    fn advance_step_at(&mut self, channel: usize, symbol: &B64RansDecSymbol, scale_bits: u32) {
        let ghost m0 = self.coder();
        let ghost s = dec_sym_model(symbol, scale_bits);
        let x = self.states[channel];
        proof {
            lemma2_to64();
            lemma2_to64_rest();
            if (scale_bits as nat) < 31 {
                lemma_pow2_strictly_increases(scale_bits as nat, 31);
            }
            lemma_u32_shl_is_mul(1u32, scale_bits);
            lemma_u64_low_bits_mask_is_mod(x, scale_bits as nat);
            assert(((1u32 << scale_bits) - 1) as u64 == low_bits_mask(scale_bits as nat) as u64);
            lemma_u64_shr_is_div(x, scale_bits as u64);
            assert(m0.states[channel as int] == x as nat);
        }
        let mask = ((1u32 << scale_bits) - 1) as u64;
        let x_new = (symbol.freq() as u64) * (x >> scale_bits) + (x & mask) - (
        symbol.cum_freq() as u64);
        self.states[channel] = x_new;
        proof {
            assert(x_new as nat == dec_step(x as nat, s));
            assert(self.coder().states =~= crate::model::coder_dec_step_at(
                m0,
                channel as int,
                s,
            ).states);
            assert(self.coder() == crate::model::coder_dec_step_at(m0, channel as int, s));
        }
    }

    fn renorm_at(&mut self, channel: usize) {
        let ghost m0 = self.coder();
        let mut x = self.states[channel];
        proof {
            lemma2_to64();
            lemma2_to64_rest();
            assert(m0.states[channel as int] == x as nat);
        }
        while x < RANS64_L
            invariant
                self.states@ == old(self).states@,
                self.data@ == old(self).data@,
                self.states@.len() == N,
                channel < N,
                self.pos <= self.data@.len(),
                self.data@.len() <= usize::MAX,
                dec_renorm(
                    x as nat,
                    bytes_le_units(
                        self.data@.subrange(self.pos as int, self.data@.len() as int),
                        4,
                    ),
                    pow2(31),
                    32,
                ) == dec_renorm(m0.states[channel as int], m0.stream, pow2(31), 32),
                dec_renorm(m0.states[channel as int], m0.stream, pow2(31), 32).0 >= pow2(31),
            decreases self.data@.len() - self.pos,
        {
            proof {
                lemma2_to64();
                lemma2_to64_rest();
                let suffix = self.data@.subrange(self.pos as int, self.data@.len() as int);
                let stream = bytes_le_units(suffix, 4);
                assert(stream.len() >= 1) by {
                    if stream.len() == 0 {
                        assert(dec_renorm(x as nat, stream, pow2(31), 32) == (x as nat, stream));
                    }
                }
                assert(suffix.len() >= 4);
                assert(self.pos + 4 <= self.data@.len());
            }
            let u = read_word(&self.data, self.pos);
            proof {
                lemma_u64_shl_is_mul(x, 32);
                let suffix = self.data@.subrange(self.pos as int, self.data@.len() as int);
                let stream = bytes_le_units(suffix, 4);
                assert(stream[0] == u as nat) by {
                    assert(suffix.take(4) =~= self.data@.subrange(
                        self.pos as int,
                        self.pos as int + 4,
                    ));
                }
                assert(dec_renorm(x as nat, stream, pow2(31), 32) == dec_renorm(
                    (x as nat) * pow2(32) + u as nat,
                    stream.drop_first(),
                    pow2(31),
                    32,
                ));
                assert(bytes_le_units(
                    self.data@.subrange(self.pos as int + 4, self.data@.len() as int),
                    4,
                ) =~= stream.drop_first()) by {
                    assert(suffix.skip(4) =~= self.data@.subrange(
                        self.pos as int + 4,
                        self.data@.len() as int,
                    ));
                }
                assert(((x << 32) | (u as u64)) == (x << 32) + (u as u64)) by (bit_vector)
                    requires
                        x < 0x8000_0000u64,
                ;
                assert((x << 32) + (u as u64) == (x as nat) * pow2(32) + u as nat);
            }
            x = (x << 32) | (u as u64);
            self.pos = self.pos + 4;
        }
        self.states[channel] = x;
        proof {
            assert(dec_renorm(
                x as nat,
                bytes_le_units(self.data@.subrange(self.pos as int, self.data@.len() as int), 4),
                pow2(31),
                32,
            ) == (
                x as nat,
                bytes_le_units(self.data@.subrange(self.pos as int, self.data@.len() as int), 4),
            ));
            let target = crate::model::coder_renorm_at(m0, channel as int, pow2(31), 32);
            assert(self.coder().states =~= target.states);
            assert(self.coder() == target);
        }
    }
}

/// Every unit of a grouped byte stream fits in 32 bits.
proof fn lemma_bytes_le_units_bounds(s: Seq<u8>)
    ensures
        forall|i: int|
            0 <= i < bytes_le_units(s, 4).len() ==> #[trigger] bytes_le_units(s, 4)[i] < pow2(32),
    decreases s.len(),
{
    if s.len() >= 4 {
        lemma_bytes_le_units_bounds(s.skip(4));
        lemma_byte_seq_value4(s.take(4));
        assert forall|i: int| 0 <= i < bytes_le_units(s, 4).len() implies #[trigger] bytes_le_units(
            s,
            4,
        )[i] < pow2(32) by {
            if i > 0 {
                assert(bytes_le_units(s, 4)[i] == bytes_le_units(s.skip(4), 4)[i - 1]);
            }
        }
    }
}

impl<'a> RansDecoder for B64RansDecoderMulti<'a, 1> {

}

/// rANS decoder symbol - 64-bit version.
#[derive(Clone, Copy, Debug)]
pub struct B64RansDecSymbol {
    cum: u32,
    frq: u32,
}

impl RansDecSymbol for B64RansDecSymbol {
    closed spec fn cum_val(&self) -> nat {
        self.cum as nat
    }

    closed spec fn freq_val(&self) -> nat {
        self.frq as nat
    }

    open spec fn val_limit() -> nat {
        0x1_0000_0000
    }

    fn new(cum_freq: u32, freq: u32) -> (r: Self) {
        B64RansDecSymbol { cum: cum_freq, frq: freq }
    }

    fn cum_freq(&self) -> (r: u32) {
        self.cum
    }

    fn freq(&self) -> (r: u32) {
        self.frq
    }
}

} // verus!
