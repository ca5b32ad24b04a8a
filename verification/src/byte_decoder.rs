use crate::decoder::{dec_sym_model, RansDecSymbol, RansDecoder, RansDecoderMulti};
use crate::model::{
    bytes_le_units, dec_init, dec_renorm, dec_slot, dec_step, lemma_bytes_units_bytewise, le_value,
    CoderModel,
};
use crate::mut_cow::MutCow;
use vstd::arithmetic::div_mod::{lemma_fundamental_div_mod, lemma_mod_bound};
use vstd::arithmetic::power2::{lemma2_to64, lemma2_to64_rest, lemma_pow2_adds, pow2};
use vstd::bits::{
    lemma_u32_low_bits_mask_is_mod, lemma_u32_shl_is_mul, lemma_u32_shr_is_div,
    low_bits_mask,
};
use vstd::prelude::*;

verus! {

/// The byte-aligned variant's normalization floor: `1 << 23`.
const RANS_BYTE_L: u32 = 0x80_0000;

/// Multi-stream interleaved rANS decoder - byte-aligned version.
#[derive(Debug)]
pub struct ByteRansDecoderMulti<'a, const N: usize> {
    states: Vec<u32>,
    data: MutCow<'a>,
    pos: usize,
}

/// Single-stream rANS decoder - byte-aligned version.
pub type ByteRansDecoder<'a> = ByteRansDecoderMulti<'a, 1>;

impl<'a, const N: usize> ByteRansDecoderMulti<'a, N> {
    /// Creates a new `ByteRansDecoderMulti` instance with given `data`:
    /// reads four bytes per channel, channels in ascending order, each
    /// least significant byte first, to seed the channel states.
    pub fn new(data: MutCow<'a>) -> (r: Self)
        requires
            N >= 1,
            N * 4 <= data@.len(),
        ensures
            r.inv(),
            r.coder() == dec_init(bytes_le_units(data@, 1), N as nat, 8, 4),
    {
        let ghost units = bytes_le_units(data@, 1);
        proof {
            lemma_bytes_units_bytewise(data@);
            lemma2_to64();
        }
        let total = data.len();
        let mut states: Vec<u32> = Vec::new();
        let mut pos: usize = 0;
        let mut c: usize = 0;
        while c < N
            invariant
                c <= N,
                N * 4 <= data@.len(),
                data@.len() == total,
                pos == c * 4,
                states@.len() == c,
                units == bytes_le_units(data@, 1),
                units == data@.map_values(|x: u8| x as nat),
                forall|i: int|
                    0 <= i < c ==> #[trigger] states@[i] as nat == le_value(
                        units.subrange(i * 4, (i + 1) * 4),
                        8,
                    ),
            decreases N - c,
        {
            proof {
                assert(c * 4 + 4 <= N * 4 && (c + 1) * 4 == c * 4 + 4) by (nonlinear_arith)
                    requires
                        c < N,
                ;
            }
            let b0 = data.get(pos);
            let b1 = data.get(pos + 1);
            let b2 = data.get(pos + 2);
            let b3 = data.get(pos + 3);
            proof {
                lemma2_to64();
                lemma2_to64_rest();
                lemma_u32_shl_is_mul(b1 as u32, 8);
                lemma_u32_shl_is_mul(b2 as u32, 16);
                lemma_u32_shl_is_mul(b3 as u32, 24);
            }
            let x = (b0 as u32) + ((b1 as u32) << 8) + ((b2 as u32) << 16) + ((b3 as u32) << 24);
            states.push(x);
            proof {
                let group = units.subrange(c as int * 4, (c as int + 1) * 4);
                reveal_with_fuel(le_value, 5);
                assert(group.len() == 4);
                assert(group[0] == b0 as nat && group[1] == b1 as nat && group[2] == b2 as nat
                    && group[3] == b3 as nat);
                assert(group.drop_first() =~= units.subrange(c as int * 4 + 1, c as int * 4 + 4));
                assert(group.drop_first().drop_first() =~= units.subrange(
                    c as int * 4 + 2,
                    c as int * 4 + 4,
                ));
                assert(group.drop_first().drop_first().drop_first() =~= units.subrange(
                    c as int * 4 + 3,
                    c as int * 4 + 4,
                ));
                assert(group.drop_first().drop_first().drop_first().drop_first() =~= Seq::<
                    nat,
                >::empty());
                assert(le_value(group, 8) == b0 as nat + 256 * (b1 as nat + 256 * (b2 as nat + 256
                    * (b3 as nat + 256 * 0))));
                assert(x as nat == le_value(group, 8));
            }
            pos = pos + 4;
            c = c + 1;
        }
        let r = ByteRansDecoderMulti { states, data, pos };
        proof {
            assert(r.coder().states =~= dec_init(units, N as nat, 8, 4).states);
            assert(r.coder().stream =~= dec_init(units, N as nat, 8, 4).stream) by {
                lemma_bytes_units_bytewise(r.data@.subrange(r.pos as int, r.data@.len() as int));
                assert(r.data@.subrange(r.pos as int, r.data@.len() as int).map_values(
                    |x: u8| x as nat,
                ) =~= units.skip(N as int * 4));
            }
        }
        r
    }
}

impl<'a, const N: usize> RansDecoderMulti<N> for ByteRansDecoderMulti<'a, N> {
    type Symbol = ByteRansDecSymbol;

    open spec fn floor_bits() -> nat {
        23
    }

    open spec fn unit_bits() -> nat {
        8
    }

    open spec fn state_bits() -> nat {
        32
    }

    closed spec fn coder(&self) -> CoderModel {
        CoderModel {
            states: self.states@.map_values(|x: u32| x as nat),
            stream: bytes_le_units(
                self.data@.subrange(self.pos as int, self.data@.len() as int),
                1,
            ),
        }
    }

    closed spec fn inv(&self) -> bool {
        &&& self.states@.len() == N
        &&& self.pos <= self.data@.len()
        &&& self.data@.len() <= usize::MAX
    }

    proof fn params_ok() {
        assert(Self::floor_bits() == 23);
        assert(Self::unit_bits() == 8);
        assert(Self::state_bits() == 32);
    }

    proof fn inv_facts(&self) {
        lemma2_to64();
        lemma2_to64_rest();
        let suffix = self.data@.subrange(self.pos as int, self.data@.len() as int);
        lemma_bytes_units_bytewise(suffix);
        assert(forall|c: int|
            0 <= c < N ==> #[trigger] self.coder().states[c] == self.states@[c] as nat);
    }

    fn get_at(&mut self, channel: usize, scale_bits: u32) -> (r: u32) {
        let x = self.states[channel];
        proof {
            lemma2_to64();
            lemma2_to64_rest();
            if (scale_bits as nat) < 31 {
                vstd::arithmetic::power2::lemma_pow2_strictly_increases(scale_bits as nat, 31);
            }
            lemma_u32_shl_is_mul(1u32, scale_bits);
            lemma_u32_low_bits_mask_is_mod(x, scale_bits as nat);
            assert((1u32 << scale_bits) - 1 == low_bits_mask(scale_bits as nat) as u32);
        }
        x & ((1u32 << scale_bits) - 1)
    }

    fn advance_step_at(&mut self, channel: usize, symbol: &ByteRansDecSymbol, scale_bits: u32) {
        let ghost m0 = self.coder();
        let ghost s = dec_sym_model(symbol, scale_bits);
        let x = self.states[channel];
        proof {
            lemma2_to64();
            lemma2_to64_rest();
            if (scale_bits as nat) < 31 {
                vstd::arithmetic::power2::lemma_pow2_strictly_increases(scale_bits as nat, 31);
            }
            lemma_u32_shl_is_mul(1u32, scale_bits);
            lemma_u32_low_bits_mask_is_mod(x, scale_bits as nat);
            assert((1u32 << scale_bits) - 1 == low_bits_mask(scale_bits as nat) as u32);
            lemma_u32_shr_is_div(x, scale_bits);
            assert(m0.states[channel as int] == x as nat);
        }
        let mask = (1u32 << scale_bits) - 1;
        let x_new = symbol.freq() * (x >> scale_bits) + (x & mask) - symbol.cum_freq();
        self.states[channel] = x_new;
        proof {
            assert(x_new as nat == dec_step(x as nat, s));
            assert(self.coder().states =~= crate::model::coder_dec_step_at(
                m0,
                channel as int,
                s,
            ).states);
            assert(self.coder() == crate::model::coder_dec_step_at(m0, channel as int, s));
        }
    }

    fn renorm_at(&mut self, channel: usize) {
        let ghost m0 = self.coder();
        let mut x = self.states[channel];
        proof {
            lemma2_to64();
            lemma2_to64_rest();
            lemma_bytes_units_bytewise(self.data@.subrange(self.pos as int, self.data@.len() as int));
            assert(m0.states[channel as int] == x as nat);
        }
        while x < RANS_BYTE_L
            invariant
                self.states@ == old(self).states@,
                self.data@ == old(self).data@,
                self.states@.len() == N,
                channel < N,
                self.pos <= self.data@.len(),
                self.data@.len() <= usize::MAX,
                (x as nat) < pow2(32),
                dec_renorm(
                    x as nat,
                    bytes_le_units(
                        self.data@.subrange(self.pos as int, self.data@.len() as int),
                        1,
                    ),
                    pow2(23),
                    8,
                ) == dec_renorm(m0.states[channel as int], m0.stream, pow2(23), 8),
                dec_renorm(m0.states[channel as int], m0.stream, pow2(23), 8).0 >= pow2(23),
            decreases self.data@.len() - self.pos,
        {
            proof {
                lemma2_to64();
                lemma2_to64_rest();
                let suffix = self.data@.subrange(self.pos as int, self.data@.len() as int);
                lemma_bytes_units_bytewise(suffix);
                let stream = bytes_le_units(suffix, 1);
                assert(stream.len() >= 1) by {
                    if stream.len() == 0 {
                        assert(dec_renorm(x as nat, stream, pow2(23), 8) == (x as nat, stream));
                    }
                }
                assert(self.pos < self.data@.len());
            }
            let u = self.data.get(self.pos);
            proof {
                lemma_u32_shl_is_mul(x, 8);
                let suffix = self.data@.subrange(self.pos as int, self.data@.len() as int);
                let stream = bytes_le_units(suffix, 1);
                assert(stream[0] == u as nat);
                assert(dec_renorm(x as nat, stream, pow2(23), 8) == dec_renorm(
                    (x as nat) * pow2(8) + u as nat,
                    stream.drop_first(),
                    pow2(23),
                    8,
                ));
                assert(bytes_le_units(
                    self.data@.subrange(self.pos as int + 1, self.data@.len() as int),
                    1,
                ) =~= stream.drop_first()) by {
                    lemma_bytes_units_bytewise(
                        self.data@.subrange(self.pos as int + 1, self.data@.len() as int),
                    );
                    assert(self.data@.subrange(
                        self.pos as int + 1,
                        self.data@.len() as int,
                    ).map_values(|b: u8| b as nat) =~= suffix.map_values(
                        |b: u8| b as nat,
                    ).drop_first());
                }
                assert(((x << 8) | (u as u32)) == (x << 8) + (u as u32)) by (bit_vector)
                    requires
                        x < 0x80_0000u32,
                ;
                assert((x << 8) + (u as u32) == (x as nat) * pow2(8) + u as nat);
            }
            x = (x << 8) | (u as u32);
            self.pos = self.pos + 1;
        }
        self.states[channel] = x;
        proof {
            assert(dec_renorm(
                x as nat,
                bytes_le_units(self.data@.subrange(self.pos as int, self.data@.len() as int), 1),
                pow2(23),
                8,
            ) == (
                x as nat,
                bytes_le_units(self.data@.subrange(self.pos as int, self.data@.len() as int), 1),
            ));
            let target = crate::model::coder_renorm_at(m0, channel as int, pow2(23), 8);
            assert(self.coder().states =~= target.states);
            assert(self.coder() == target);
        }
    }
}

impl<'a> RansDecoder for ByteRansDecoderMulti<'a, 1> {

}

/// rANS decoder symbol - byte-aligned version.
#[derive(Clone, Copy, Debug)]
pub struct ByteRansDecSymbol {
    cum: u32,
    frq: u32,
}

impl RansDecSymbol for ByteRansDecSymbol {
    closed spec fn cum_val(&self) -> nat {
        self.cum as nat
    }

    closed spec fn freq_val(&self) -> nat {
        self.frq as nat
    }

    open spec fn val_limit() -> nat {
        65536
    }

    fn new(cum_freq: u32, freq: u32) -> (r: Self) {
        ByteRansDecSymbol { cum: cum_freq, frq: freq }
    }

    fn cum_freq(&self) -> (r: u32) {
        self.cum
    }

    fn freq(&self) -> (r: u32) {
        self.frq
    }
}

} // verus!
