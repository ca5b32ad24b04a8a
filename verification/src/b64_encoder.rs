use crate::encoder::{RansEncSymbol, RansEncoder, RansEncoderMulti};
use crate::model::{
    bytes_le_units, enc_emit, enc_step, fresh_coder, lemma_bytes_le_units_prepend,
    lemma_enc_put_parts, lemma_reciprocal_div, lemma_reciprocal_one, lemma_unit_le_bytes4,
    lemma_units_bytes_roundtrip, valid_sym, x_threshold, CoderModel, SymModel,
};
use vstd::arithmetic::div_mod::{
    lemma_div_basics_2, lemma_div_denominator, lemma_fundamental_div_mod, lemma_mod_bound,
    lemma_multiply_divide_lt, lemma_small_mod,
};
use vstd::arithmetic::power2::{
    lemma2_to64, lemma2_to64_rest, lemma_pow2_adds, lemma_pow2_pos, lemma_pow2_strictly_increases,
    lemma_pow2_subtracts, pow2,
};
use vstd::bits::{
    lemma_low_bits_mask_values, lemma_u128_shr_is_div, lemma_u32_shl_is_mul, lemma_u32_shr_is_div,
    lemma_u64_low_bits_mask_is_mod, lemma_u64_shl_is_mul, lemma_u64_shr_is_div, low_bits_mask,
};
use vstd::prelude::*;
use vstd::slice::slice_subrange;

verus! {

/// The 64-bit variant's normalization floor: `1 << 31`. States stay in
/// `[1 << 31, 1 << 63)`.
const RANS64_L: u64 = 0x8000_0000;

/// Multi-stream interleaved rANS encoder - 64-bit version.
#[derive(Debug)]
pub struct B64RansEncoderMulti<const N: usize> {
    states: Vec<u64>,
    dst: Vec<u8>,
    ptr: usize,
}

/// Single-stream rANS encoder - 64-bit version.
pub type B64RansEncoder = B64RansEncoderMulti<1>;

impl<const N: usize> B64RansEncoderMulti<N> {
    /// Creates a new `B64RansEncoderMulti` instance that can contain
    /// `max_len` bytes in the internal buffer, rounded down to whole
    /// 32-bit units.
    pub fn new(max_len: usize) -> (r: Self)
        requires
            N >= 1,
        ensures
            r.inv(),
            r.coder() == fresh_coder(N as nat, pow2(31)),
            r.free_units() == max_len as nat / 4,
            r.cap_units() == max_len as nat / 4,
    {
        proof {
            lemma2_to64();
            lemma2_to64_rest();
        }
        let mut states: Vec<u64> = Vec::new();
        let mut i: usize = 0;
        while i < N
            invariant
                i <= N,
                states@.len() == i,
                forall|c: int| 0 <= c < i ==> #[trigger] states@[c] == RANS64_L,
            decreases N - i,
        {
            states.push(RANS64_L);
            i = i + 1;
        }
        let cap = (max_len / 4) * 4;
        let mut dst: Vec<u8> = Vec::new();
        let mut j: usize = 0;
        while j < cap
            invariant
                j <= cap,
                dst@.len() == j,
            decreases cap - j,
        {
            dst.push(0);
            j = j + 1;
        }
        proof {
            lemma_fundamental_div_mod(max_len as int, 4);
            lemma_mod_bound(max_len as int, 4);
            assert(cap as nat / 4 == max_len as nat / 4 && cap as nat % 4 == 0) by {
                vstd::arithmetic::div_mod::lemma_fundamental_div_mod_converse(
                    cap as int,
                    4,
                    (max_len as int) / 4,
                    0,
                );
            }
        }
        let mut r = B64RansEncoderMulti { states, dst, ptr: 0 };
        r.reset();
        r
    }
}

impl<const N: usize> RansEncoderMulti<N> for B64RansEncoderMulti<N> {
    type Symbol = B64RansEncSymbol;

    open spec fn floor_bits() -> nat {
        31
    }

    open spec fn unit_bits() -> nat {
        32
    }

    open spec fn unit_bytes() -> nat {
        4
    }

    open spec fn state_units() -> nat {
        2
    }

    closed spec fn coder(&self) -> CoderModel {
        CoderModel {
            states: self.states@.map_values(|x: u64| x as nat),
            stream: bytes_le_units(
                self.dst@.subrange(self.ptr as int, self.dst@.len() as int),
                4,
            ),
        }
    }

    closed spec fn free_units(&self) -> nat {
        self.ptr as nat / 4
    }

    closed spec fn cap_units(&self) -> nat {
        self.dst@.len() / 4
    }

    closed spec fn inv(&self) -> bool {
        &&& self.states@.len() == N
        &&& self.ptr <= self.dst@.len()
        &&& self.ptr % 4 == 0
        &&& self.dst@.len() % 4 == 0
        &&& forall|c: int| 0 <= c < N ==> pow2(31) <= #[trigger] self.states@[c] < pow2(63)
    }

    proof fn params_ok() {
        lemma2_to64();
        assert(Self::floor_bits() == 31);
        assert(Self::unit_bits() == 32);
        assert(Self::unit_bytes() == 4);
        assert(Self::state_units() == 2);
        assert(<B64RansEncSymbol as RansEncSymbol>::scale_limit() == 31);
    }

    proof fn inv_facts(&self) {
        lemma2_to64();
        lemma2_to64_rest();
        lemma_pow2_adds(31, 32);
        let suffix = self.dst@.subrange(self.ptr as int, self.dst@.len() as int);
        assert(suffix.len() % 4 == 0) by {
            vstd::arithmetic::div_mod::lemma_mod_sub_multiples_vanish(
                self.dst@.len() as int,
                4,
            );
            lemma_fundamental_div_mod(self.ptr as int, 4);
            assert(self.dst@.len() as int - self.ptr as int == self.dst@.len() as int - 4 * (
            self.ptr as int / 4));
        }
        lemma_units_bytes_roundtrip(suffix, 4);
        assert(self.coder().stream.len() + self.free_units() == self.cap_units()) by {
            assert(self.coder().stream.len() * 4 == suffix.len());
            lemma_fundamental_div_mod(self.ptr as int, 4);
            lemma_fundamental_div_mod(self.dst@.len() as int, 4);
            assert(self.coder().stream.len() == suffix.len() / 4) by (nonlinear_arith)
                requires
                    self.coder().stream.len() * 4 == suffix.len(),
            ;
            assert(suffix.len() / 4 + self.ptr as nat / 4 == self.dst@.len() / 4)
                by (nonlinear_arith)
                requires
                    suffix.len() == self.dst@.len() - self.ptr,
                    self.ptr % 4 == 0,
                    self.dst@.len() % 4 == 0,
                    self.ptr <= self.dst@.len(),
            ;
        }
        assert forall|c: int| 0 <= c < N implies pow2(31) <= #[trigger] self.coder().states[c]
            < pow2(31) * pow2(32) by {
            assert(self.coder().states[c] == self.states@[c] as nat);
        }
    }

    fn reset(&mut self) {
        let mut i: usize = 0;
        while i < N
            invariant
                i <= N,
                self.states@.len() == N,
                self.dst@ == old(self).dst@,
                self.ptr == old(self).ptr,
                forall|c: int| 0 <= c < i ==> #[trigger] self.states@[c] == RANS64_L,
            decreases N - i,
        {
            self.states[i] = RANS64_L;
            i = i + 1;
        }
        let n = self.dst.len();
        self.ptr = n;
        proof {
            lemma2_to64();
            lemma2_to64_rest();
            assert(self.coder().states =~= fresh_coder(N as nat, pow2(31)).states);
            assert(self.dst@.subrange(self.ptr as int, self.dst@.len() as int) =~= Seq::<
                u8,
            >::empty());
            assert(self.coder().stream =~= fresh_coder(N as nat, pow2(31)).stream);
        }
    }

    fn put_at(&mut self, channel: usize, symbol: &B64RansEncSymbol) {
        let ghost m0 = self.coder();
        let ghost s = symbol.sym();
        let ghost lim = x_threshold(pow2(31), 32, s);
        proof {
            symbol.wf_facts();
            lemma2_to64();
            lemma2_to64_rest();
            lemma_pow2_adds(31, 32);
            assert(m0.states[channel as int] == self.states@[channel as int]);
            lemma_enc_put_parts(self.states@[channel as int] as nat, s, 31, 32);
        }
        let ghost em_all = enc_emit(self.states@[channel as int] as nat, lim, 32).0;
        let mut x = self.states[channel];
        proof {
            lemma_u64_shr_is_div(RANS64_L, symbol.scale_bits as u64);
            lemma_pow2_subtracts(s.scale, 31);
            lemma_u64_shl_is_mul(RANS64_L >> symbol.scale_bits, 32);
            lemma_pow2_adds((31 - s.scale) as nat, 32);
            if s.scale >= 1 {
                lemma_pow2_strictly_increases((63 - s.scale) as nat, 63);
            }
            assert((RANS64_L >> symbol.scale_bits) << 32 == pow2((63 - s.scale) as nat));
            assert(pow2((63 - s.scale) as nat) * pow2(s.scale) == pow2(63)) by {
                lemma_pow2_adds((63 - s.scale) as nat, s.scale);
            }
            assert(pow2((63 - s.scale) as nat) * (symbol.freq as nat) <= pow2(63))
                by (nonlinear_arith)
                requires
                    symbol.freq as nat <= pow2(s.scale),
                    pow2((63 - s.scale) as nat) * pow2(s.scale) == pow2(63),
                    0 <= pow2((63 - s.scale) as nat),
            ;
            assert(x_threshold(pow2(31), 32, s) == pow2((63 - s.scale) as nat) * (
            symbol.freq as nat)) by {
                lemma_pow2_subtracts(s.scale, 31);
                lemma_pow2_adds((31 - s.scale) as nat, 32);
            }
        }
        let x_max = ((RANS64_L >> symbol.scale_bits) << 32) * (symbol.freq as u64);
        let ghost mut written = Seq::<nat>::empty();
        proof {
            assert(written + enc_emit(x as nat, lim, 32).0 =~= em_all);
            assert(written.reverse() + m0.stream =~= m0.stream);
        }
        while x >= x_max
            invariant
                symbol.wf(),
                s == symbol.sym(),
                valid_sym(s),
                s.scale <= 31,
                lim == x_threshold(pow2(31), 32, s),
                x_max as nat == lim,
                1 <= lim <= pow2(63),
                (x as nat) < pow2(63),
                self.states@ == old(self).states@,
                self.dst@.len() == old(self).dst@.len(),
                self.dst@.len() % 4 == 0,
                self.ptr % 4 == 0,
                self.states@.len() == N,
                channel < N,
                self.ptr <= self.dst@.len(),
                em_all.len() * 4 <= old(self).ptr,
                written + enc_emit(x as nat, lim, 32).0 == em_all,
                enc_emit(x as nat, lim, 32).1 == enc_emit(
                    old(self).states@[channel as int] as nat,
                    lim,
                    32,
                ).1,
                self.ptr == old(self).ptr - written.len() * 4,
                bytes_le_units(self.dst@.subrange(self.ptr as int, self.dst@.len() as int), 4)
                    == written.reverse() + m0.stream,
            decreases x,
        {
            proof {
                lemma2_to64();
                lemma2_to64_rest();
                lemma_u64_shr_is_div(x, 32);
                lemma_u64_low_bits_mask_is_mod(x, 32);
                lemma_low_bits_mask_values();
                lemma_mod_bound(x as int, pow2(32) as int);
                assert(enc_emit(x as nat, lim, 32).0.len() >= 1);
                assert(written.len() < em_all.len());
                assert((written.len() + 1) * 4 <= em_all.len() * 4 && written.len() * 4 + 4 == (
                written.len() + 1) * 4) by (nonlinear_arith)
                    requires
                        written.len() < em_all.len(),
                ;
            }
            let u = (x & 0xffff_ffff) as u32;
            let ghost prev_suffix = self.dst@.subrange(self.ptr as int, self.dst@.len() as int);
            self.ptr = self.ptr - 4;
            let p = self.ptr;
            proof {
                lemma_u32_shr_is_div(u, 8);
                lemma_u32_shr_is_div(u, 16);
                lemma_u32_shr_is_div(u, 24);
                vstd::bits::lemma_u32_low_bits_mask_is_mod(u, 8);
                vstd::bits::lemma_u32_low_bits_mask_is_mod(u >> 8, 8);
                vstd::bits::lemma_u32_low_bits_mask_is_mod(u >> 16, 8);
                vstd::bits::lemma_u32_low_bits_mask_is_mod(u >> 24, 8);
            }
            let b0 = (u & 0xff) as u8;
            let b1 = ((u >> 8) & 0xff) as u8;
            let b2 = ((u >> 16) & 0xff) as u8;
            let b3 = ((u >> 24) & 0xff) as u8;
            self.dst[p] = b0;
            self.dst[p + 1] = b1;
            self.dst[p + 2] = b2;
            self.dst[p + 3] = b3;
            x = x >> 32;
            proof {
                let uv = u as nat;
                lemma_unit_le_bytes4(uv);
                lemma_div_denominator(uv as int, 256, 256);
                lemma_div_denominator(uv as int, 65536, 256);
                let new_suffix = self.dst@.subrange(self.ptr as int, self.dst@.len() as int);
                assert(new_suffix =~= crate::model::unit_le_bytes(uv, 4) + prev_suffix);
                lemma_bytes_le_units_prepend(uv, prev_suffix, 4);
                let written2 = written + seq![uv];
                assert(written2.reverse() =~= seq![uv] + written.reverse());
                assert(written2.reverse() + m0.stream =~= seq![uv] + (written.reverse()
                    + m0.stream));
                assert(written2 + enc_emit(x as nat, lim, 32).0 =~= em_all);
                written = written2;
            }
        }
        proof {
            assert(enc_emit(x as nat, lim, 32).0 =~= Seq::<nat>::empty());
            assert(written =~= em_all);
            assert(x as nat == enc_emit(old(self).states@[channel as int] as nat, lim, 32).1);
        }
        // Fast division by freq through the precomputed reciprocal.
        proof {
            lemma_pow2_adds(63, 64);
            assert((x as u128) * (symbol.rcp_freq as u128) < pow2(127)) by (nonlinear_arith)
                requires
                    (x as nat) < pow2(63),
                    (symbol.rcp_freq as nat) < pow2(64),
                    pow2(127) == pow2(63) * pow2(64),
            ;
            assert(pow2(127) <= u128::MAX) by {
                lemma2_to64_rest();
                lemma_pow2_adds(64, 63);
                assert(pow2(127) == pow2(64) * pow2(63));
            }
        }
        let prod: u128 = (x as u128) * (symbol.rcp_freq as u128);
        proof {
            lemma_u128_shr_is_div(prod, 64);
            lemma_pow2_adds(64, 63);
            lemma_multiply_divide_lt(prod as int, pow2(64) as int, pow2(63) as int);
            lemma2_to64_rest();
        }
        let q_hi = (prod >> 64) as u64;
        let q = q_hi >> symbol.rcp_shift;
        let ghost xr = x as nat;
        let ghost f = s.freq;
        let ghost scale_val = pow2(s.scale);
        proof {
            lemma_pow2_pos(s.scale);
            lemma_u64_shr_is_div(q_hi, symbol.rcp_shift as u64);
            if f < 2 {
                // rcp_freq is all ones; the quotient is x - 1 and the bias
                // absorbs the difference.
                assert(pow2(64) - 1 == u64::MAX as nat) by {
                    lemma2_to64_rest();
                }
                lemma_reciprocal_one(xr, 64);
                assert(q_hi as nat == xr - 1);
                assert(pow2(0) == 1);
                lemma_div_basics_2(q_hi as int);
                assert(q as nat == xr - 1);
                assert(xr / 1 == xr && xr % 1 == 0) by {
                    lemma_fundamental_div_mod(xr as int, 1);
                    lemma_small_mod(0, 1);
                    assert(xr == 1 * xr + 0);
                    vstd::arithmetic::div_mod::lemma_fundamental_div_mod_converse(
                        xr as int,
                        1,
                        xr as int,
                        0,
                    );
                }
                assert(enc_step(xr, s) == xr * scale_val + s.cum) by (nonlinear_arith)
                    requires
                        enc_step(xr, s) == (xr / 1) * scale_val + xr % 1 + s.cum,
                        xr / 1 == xr,
                        xr % 1 == 0,
                ;
                assert(x as nat + symbol.bias as nat + (q as nat) * (symbol.cmpl_freq as nat)
                    == enc_step(xr, s)) by (nonlinear_arith)
                    requires
                        enc_step(xr, s) == xr * scale_val + s.cum,
                        x as nat == xr,
                        1 <= xr,
                        q as nat == xr - 1,
                        symbol.bias as nat == s.cum + scale_val - 1,
                        symbol.cmpl_freq as nat == scale_val - f,
                        f == 1,
                        1 <= scale_val,
                ;
            } else {
                let sh = symbol.rcp_shift as nat + 1;
                lemma_reciprocal_div(xr, f, sh, 63, symbol.rcp_freq as nat);
                assert((xr * (symbol.rcp_freq as nat)) / pow2(63 + sh) == xr / f);
                lemma_pow2_adds(64, (sh - 1) as nat);
                lemma_pow2_pos((sh - 1) as nat);
                lemma_div_denominator(
                    (xr * (symbol.rcp_freq as nat)) as int,
                    pow2(64) as int,
                    pow2((sh - 1) as nat) as int,
                );
                assert(q as nat == (xr * (symbol.rcp_freq as nat)) / (pow2(64) * pow2(
                    (sh - 1) as nat,
                )));
                assert(64 + (sh - 1) as nat == 63 + sh);
                assert(q as nat == xr / f);
                lemma_fundamental_div_mod(xr as int, f as int);
                lemma_mod_bound(xr as int, f as int);
                let p = xr / f;
                let r = xr % f;
                assert((q as nat) * (symbol.cmpl_freq as nat) == p * ((scale_val - f) as nat));
                assert(p * ((scale_val - f) as nat) + xr == p * scale_val + r)
                    by (nonlinear_arith)
                    requires
                        xr == f * p + r,
                        f <= scale_val,
                        0 <= r,
                        0 <= p,
                ;
                assert(enc_step(xr, s) == p * scale_val + r + s.cum);
                assert(x as nat + symbol.bias as nat + (q as nat) * (symbol.cmpl_freq as nat)
                    == enc_step(xr, s));
            }
            assert((q as nat) * (symbol.cmpl_freq as nat) <= enc_step(xr, s)) by (nonlinear_arith)
                requires
                    x as nat + symbol.bias as nat + (q as nat) * (symbol.cmpl_freq as nat)
                        == enc_step(xr, s),
            ;
            assert(enc_step(xr, s) < pow2(63));
        }
        let x_new = x + (symbol.bias as u64) + q * (symbol.cmpl_freq as u64);
        self.states[channel] = x_new;
        proof {
            let target = crate::model::coder_put_at(m0, channel as int, s, pow2(31), 32);
            assert(self.coder().states =~= target.states);
            assert(self.coder().stream == em_all.reverse() + m0.stream);
            assert(self.coder() == target);
            let p0 = old(self).ptr as int;
            let pn = self.ptr as int;
            let k = em_all.len() as int;
            lemma_fundamental_div_mod(p0, 4);
            assert(pn == 4 * (p0 / 4 - k) + 0) by (nonlinear_arith)
                requires
                    pn == p0 - k * 4,
                    p0 == 4 * (p0 / 4) + p0 % 4,
                    p0 % 4 == 0,
            ;
            vstd::arithmetic::div_mod::lemma_fundamental_div_mod_converse(pn, 4, p0 / 4 - k, 0);
            assert(self.free_units() == old(self).free_units() - em_all.len());
        }
    }

    fn flush_at(&mut self, channel: usize) {
        let ghost m0 = self.coder();
        let x = self.states[channel];
        proof {
            lemma2_to64();
            lemma2_to64_rest();
            lemma_u64_shr_is_div(x, 32);
            lemma_u64_low_bits_mask_is_mod(x, 32);
            lemma_low_bits_mask_values();
            lemma_mod_bound(x as int, pow2(32) as int);
            lemma_multiply_divide_lt(x as int, pow2(32) as int, pow2(32) as int);
            lemma_pow2_adds(32, 32);
            assert((x as nat) < pow2(32) * pow2(32)) by {
                lemma_pow2_strictly_increases(63, 64);
            }
        }
        let u0 = (x & 0xffff_ffff) as u32;
        let u1 = (x >> 32) as u32;
        proof {
            lemma_fundamental_div_mod(self.ptr as int, 4);
            assert(self.ptr >= 8) by (nonlinear_arith)
                requires
                    self.ptr as nat / 4 >= 2,
                    self.ptr == 4 * (self.ptr as int / 4) + self.ptr % 4,
                    self.ptr % 4 == 0,
            ;
        }
        self.write_unit(u1);
        self.write_unit(u0);
        proof {
            let xv = x as nat;
            let units = crate::model::le_units(xv, 32, 2);
            assert(units =~= seq![xv % pow2(32), (xv / pow2(32)) % pow2(32)]) by {
                reveal_with_fuel(crate::model::le_units, 3);
                lemma_small_mod((xv / pow2(32)) as nat, pow2(32));
            }
            assert(units =~= seq![u0 as nat, u1 as nat]) by {
                lemma_small_mod((xv / pow2(32)) as nat, pow2(32));
            }
            let target = crate::model::coder_flush_at(m0, channel as int, 32, 2);
            assert(seq![u0 as nat] + (seq![u1 as nat] + m0.stream) =~= units + m0.stream);
            assert(self.coder().states =~= target.states);
            assert(self.coder() == target);
            let p0 = old(self).ptr as int;
            let pn = self.ptr as int;
            lemma_fundamental_div_mod(p0, 4);
            assert(pn == 4 * (p0 / 4 - 2) + 0) by (nonlinear_arith)
                requires
                    pn == p0 - 8,
                    p0 == 4 * (p0 / 4) + p0 % 4,
                    p0 % 4 == 0,
            ;
            vstd::arithmetic::div_mod::lemma_fundamental_div_mod_converse(pn, 4, p0 / 4 - 2, 0);
            assert(self.free_units() == old(self).free_units() - 2);
        }
    }

    fn data(&self) -> (r: &[u8]) {
        proof {
            let suffix = self.dst@.subrange(self.ptr as int, self.dst@.len() as int);
            assert(suffix.len() % 4 == 0) by {
                lemma_fundamental_div_mod(self.ptr as int, 4);
                lemma_fundamental_div_mod(self.dst@.len() as int, 4);
                assert(suffix.len() % 4 == 0) by (nonlinear_arith)
                    requires
                        suffix.len() == self.dst@.len() - self.ptr,
                        self.ptr % 4 == 0,
                        self.dst@.len() % 4 == 0,
                        self.ptr <= self.dst@.len(),
                ;
            }
            lemma_units_bytes_roundtrip(suffix, 4);
        }
        let r = slice_subrange(self.dst.as_slice(), self.ptr, self.dst.len());
        r
    }
}

impl<const N: usize> B64RansEncoderMulti<N> {
    /// Prepends one 32-bit unit to the stream as four little-endian
    /// bytes, moving the write cursor back.
    fn write_unit(&mut self, u: u32)
        requires
            old(self).inv(),
            4 <= old(self).ptr,
        ensures
            final(self).inv(),
            final(self).states@ == old(self).states@,
            final(self).dst@.len() == old(self).dst@.len(),
            final(self).ptr == old(self).ptr - 4,
            bytes_le_units(
                final(self).dst@.subrange(final(self).ptr as int, final(self).dst@.len() as int),
                4,
            ) == seq![u as nat] + bytes_le_units(
                old(self).dst@.subrange(old(self).ptr as int, old(self).dst@.len() as int),
                4,
            ),
    {
        let ghost prev_suffix = self.dst@.subrange(self.ptr as int, self.dst@.len() as int);
        proof {
            lemma2_to64();
            lemma2_to64_rest();
            lemma_u32_shr_is_div(u, 8);
            lemma_u32_shr_is_div(u, 16);
            lemma_u32_shr_is_div(u, 24);
            vstd::bits::lemma_u32_low_bits_mask_is_mod(u, 8);
            vstd::bits::lemma_u32_low_bits_mask_is_mod(u >> 8, 8);
            vstd::bits::lemma_u32_low_bits_mask_is_mod(u >> 16, 8);
            vstd::bits::lemma_u32_low_bits_mask_is_mod(u >> 24, 8);
            lemma_low_bits_mask_values();
        }
        self.ptr = self.ptr - 4;
        let p = self.ptr;
        let b0 = (u & 0xff) as u8;
        let b1 = ((u >> 8) & 0xff) as u8;
        let b2 = ((u >> 16) & 0xff) as u8;
        let b3 = ((u >> 24) & 0xff) as u8;
        self.dst[p] = b0;
        self.dst[p + 1] = b1;
        self.dst[p + 2] = b2;
        self.dst[p + 3] = b3;
        proof {
            let uv = u as nat;
            lemma_unit_le_bytes4(uv);
            lemma_div_denominator(uv as int, 256, 256);
            lemma_div_denominator(uv as int, 65536, 256);
            let new_suffix = self.dst@.subrange(self.ptr as int, self.dst@.len() as int);
            assert(new_suffix =~= crate::model::unit_le_bytes(uv, 4) + prev_suffix);
            lemma_bytes_le_units_prepend(uv, prev_suffix, 4);
            let p0 = old(self).ptr as int;
            let pn = self.ptr as int;
            lemma_fundamental_div_mod(p0, 4);
            assert(pn == 4 * (p0 / 4 - 1) + 0) by (nonlinear_arith)
                requires
                    pn == p0 - 4,
                    p0 == 4 * (p0 / 4) + p0 % 4,
                    p0 % 4 == 0,
            ;
            vstd::arithmetic::div_mod::lemma_fundamental_div_mod_converse(pn, 4, p0 / 4 - 1, 0);
            assert(self.ptr % 4 == 0);
        }
    }
}

impl RansEncoder for B64RansEncoderMulti<1> {

}

/// rANS encoder symbol - 64-bit version.
///
/// Holds the frequency and scale alongside the fixed-point reciprocal of
/// the frequency, precomputed once so that the encode path divides by the
/// frequency with a widening multiply and shifts.
#[derive(Clone, Copy)]
pub struct B64RansEncSymbol {
    rcp_freq: u64,
    freq: u32,
    bias: u32,
    cmpl_freq: u32,
    rcp_shift: u32,
    scale_bits: u32,
    sym: Ghost<SymModel>,
}

impl RansEncSymbol for B64RansEncSymbol {
    closed spec fn sym(&self) -> SymModel {
        self.sym@
    }

    closed spec fn wf(&self) -> bool {
        let s = self.sym@;
        &&& valid_sym(s)
        &&& s.scale <= 31
        &&& self.freq as nat == s.freq
        &&& self.scale_bits as nat == s.scale
        &&& self.cmpl_freq as nat == pow2(s.scale) - s.freq
        &&& if s.freq < 2 {
            &&& self.rcp_freq as nat == (pow2(64) - 1) as nat
            &&& self.rcp_shift == 0
            &&& self.bias as nat == s.cum + pow2(s.scale) - 1
        } else {
            let sh = self.rcp_shift as nat + 1;
            &&& s.freq <= pow2(sh)
            &&& pow2((sh - 1) as nat) < s.freq
            &&& sh <= 31
            &&& self.rcp_freq as nat == (pow2(63 + sh) + s.freq - 1) as nat / s.freq
            &&& self.bias == s.cum
        }
    }

    open spec fn scale_limit() -> nat {
        31
    }

    proof fn wf_facts(&self) {
    }

    fn new(cum_freq: u32, freq: u32, scale_bits: u32) -> (r: Self) {
        let ghost s = SymModel {
            cum: cum_freq as nat,
            freq: freq as nat,
            scale: scale_bits as nat,
        };
        proof {
            lemma2_to64();
            lemma2_to64_rest();
            lemma_pow2_pos(scale_bits as nat);
            if (scale_bits as nat) < 31 {
                lemma_pow2_strictly_increases(scale_bits as nat, 31);
            }
            lemma_u32_shl_is_mul(1u32, scale_bits);
        }
        let cmpl_freq = (1u32 << scale_bits) - freq;
        if freq < 2 {
            let bias = cum_freq + (1u32 << scale_bits) - 1;
            B64RansEncSymbol {
                rcp_freq: u64::MAX,
                freq,
                bias,
                cmpl_freq,
                rcp_shift: 0,
                scale_bits,
                sym: Ghost(s),
            }
        } else {
            let mut shift: u32 = 0;
            proof {
                if (scale_bits as nat) < 31 {
                    lemma_pow2_strictly_increases(scale_bits as nat, 31);
                }
            }
            while freq > (1u32 << shift)
                invariant
                    shift <= 31,
                    2 <= freq,
                    freq as nat <= pow2(31),
                    shift >= 1 ==> pow2((shift - 1) as nat) < freq as nat,
                decreases 31 - shift,
            {
                proof {
                    lemma2_to64();
                    lemma2_to64_rest();
                    if shift < 31 {
                        lemma_pow2_strictly_increases(shift as nat, 31);
                    }
                    lemma_u32_shl_is_mul(1u32, shift);
                    assert(shift < 31) by {
                        if shift == 31 {
                            assert(freq as nat > pow2(31));
                        }
                    }
                    if shift + 1 < 31 {
                        lemma_pow2_strictly_increases((shift + 1) as nat, 31);
                    }
                    lemma_u32_shl_is_mul(1u32, (shift + 1) as u32);
                }
                shift = shift + 1;
            }
            proof {
                lemma2_to64();
                lemma2_to64_rest();
                if shift < 31 {
                    lemma_pow2_strictly_increases(shift as nat, 31);
                }
                lemma_u32_shl_is_mul(1u32, shift);
                assert(shift >= 1) by {
                    if shift == 0 {
                        assert(freq as nat <= pow2(0));
                    }
                }
                lemma_u64_shl_is_mul(1u64, 63);
                lemma_u64_shl_is_mul(1u64, shift as u64);
                lemma_pow2_adds(63, shift as nat);
                assert(pow2((63 + shift) as nat) <= pow2(94)) by {
                    if 63 + shift < 94 {
                        lemma_pow2_strictly_increases((63 + shift) as nat, 94);
                    }
                }
                assert(pow2(94) < u128::MAX) by {
                    lemma2_to64();
                    lemma2_to64_rest();
                    lemma_pow2_adds(64, 30);
                    assert(pow2(94) == pow2(64) * pow2(30));
                }
                lemma_reciprocal_div(0, freq as nat, shift as nat, 63, (pow2((63 + shift) as nat)
                    + freq - 1) as nat / (freq as nat));
            }
            let big: u128 = ((1u64 << 63) as u128) * ((1u64 << shift) as u128);
            let rcp_freq = ((big + (freq as u128) - 1) / (freq as u128)) as u64;
            B64RansEncSymbol {
                rcp_freq,
                freq,
                bias: cum_freq,
                cmpl_freq,
                rcp_shift: shift - 1,
                scale_bits,
                sym: Ghost(s),
            }
        }
    }
}

} // verus!
