use crate::encoder::{RansEncSymbol, RansEncoder, RansEncoderMulti};
use crate::model::{
    bytes_le_units, enc_emit, enc_step, fresh_coder, lemma_bytes_le_units_prepend,
    lemma_enc_put_parts, lemma_reciprocal_div, lemma_reciprocal_one, lemma_units_bytes_roundtrip,
    valid_sym, x_threshold, CoderModel, SymModel,
};
use vstd::arithmetic::div_mod::{
    lemma_div_basics_2, lemma_div_denominator, lemma_fundamental_div_mod, lemma_mod_bound,
    lemma_multiply_divide_lt, lemma_small_mod,
};
use vstd::arithmetic::power2::{
    lemma2_to64, lemma2_to64_rest, lemma_pow2_adds, lemma_pow2_pos, lemma_pow2_strictly_increases,
    lemma_pow2_subtracts, pow2,
};
use vstd::bits::{
    lemma_low_bits_mask_values, lemma_u32_low_bits_mask_is_mod, lemma_u32_shl_is_mul,
    lemma_u32_shr_is_div, lemma_u64_shl_is_mul, lemma_u64_shr_is_div, low_bits_mask,
};
use vstd::prelude::*;
use vstd::slice::slice_subrange;

verus! {

/// The byte-aligned variant's normalization floor: `1 << 23`. States
/// stay in `[1 << 23, 1 << 31)`.
const RANS_BYTE_L: u32 = 0x80_0000;

/// Multi-stream interleaved rANS encoder - byte-aligned version.
#[derive(Debug)]
pub struct ByteRansEncoderMulti<const N: usize> {
    states: Vec<u32>,
    dst: Vec<u8>,
    ptr: usize,
}

/// Single-stream rANS encoder - byte-aligned version.
pub type ByteRansEncoder = ByteRansEncoderMulti<1>;

impl<const N: usize> ByteRansEncoderMulti<N> {
    /// Creates a new `ByteRansEncoderMulti` instance that can contain
    /// `max_len` bytes in the internal buffer.
    pub fn new(max_len: usize) -> (r: Self)
        requires
            N >= 1,
        ensures
            r.inv(),
            r.coder() == fresh_coder(N as nat, pow2(23)),
            r.free_units() == max_len as nat,
            r.cap_units() == max_len as nat,
    {
        proof {
            lemma2_to64();
            lemma2_to64_rest();
        }
        let mut states: Vec<u32> = Vec::new();
        let mut i: usize = 0;
        while i < N
            invariant
                i <= N,
                states@.len() == i,
                forall|c: int| 0 <= c < i ==> #[trigger] states@[c] == RANS_BYTE_L,
            decreases N - i,
        {
            states.push(RANS_BYTE_L);
            i = i + 1;
        }
        let mut dst: Vec<u8> = Vec::new();
        let mut j: usize = 0;
        while j < max_len
            invariant
                j <= max_len,
                dst@.len() == j,
            decreases max_len - j,
        {
            dst.push(0);
            j = j + 1;
        }
        let mut r = ByteRansEncoderMulti { states, dst, ptr: 0 };
        r.reset();
        r
    }
}

impl<const N: usize> RansEncoderMulti<N> for ByteRansEncoderMulti<N> {
    type Symbol = ByteRansEncSymbol;

    open spec fn floor_bits() -> nat {
        23
    }

    open spec fn unit_bits() -> nat {
        8
    }

    open spec fn unit_bytes() -> nat {
        1
    }

    open spec fn state_units() -> nat {
        4
    }

    closed spec fn coder(&self) -> CoderModel {
        CoderModel {
            states: self.states@.map_values(|x: u32| x as nat),
            stream: bytes_le_units(
                self.dst@.subrange(self.ptr as int, self.dst@.len() as int),
                1,
            ),
        }
    }

    closed spec fn free_units(&self) -> nat {
        self.ptr as nat
    }

    closed spec fn cap_units(&self) -> nat {
        self.dst@.len()
    }

    closed spec fn inv(&self) -> bool {
        &&& self.states@.len() == N
        &&& self.ptr <= self.dst@.len()
        &&& forall|c: int| 0 <= c < N ==> pow2(23) <= #[trigger] self.states@[c] < pow2(31)
    }

    proof fn params_ok() {
        lemma2_to64();
        assert(Self::floor_bits() == 23);
        assert(Self::unit_bits() == 8);
        assert(Self::unit_bytes() == 1);
        assert(Self::state_units() == 4);
        assert(<ByteRansEncSymbol as RansEncSymbol>::scale_limit() == 16);
    }

    proof fn inv_facts(&self) {
        lemma2_to64();
        lemma2_to64_rest();
        lemma_pow2_adds(23, 8);
        let suffix = self.dst@.subrange(self.ptr as int, self.dst@.len() as int);
        lemma_units_bytes_roundtrip(suffix, 1);
        assert(self.coder().stream.len() * 1 == self.coder().stream.len()) by (nonlinear_arith);
        assert forall|c: int| 0 <= c < N implies pow2(23) <= #[trigger] self.coder().states[c]
            < pow2(23) * pow2(8) by {
            assert(self.coder().states[c] == self.states@[c] as nat);
        }
    }

    fn reset(&mut self) {
        let mut i: usize = 0;
        while i < N
            invariant
                i <= N,
                self.states@.len() == N,
                self.dst@ == old(self).dst@,
                self.ptr == old(self).ptr,
                forall|c: int| 0 <= c < i ==> #[trigger] self.states@[c] == RANS_BYTE_L,
            decreases N - i,
        {
            self.states[i] = RANS_BYTE_L;
            i = i + 1;
        }
        let n = self.dst.len();
        self.ptr = n;
        proof {
            lemma2_to64();
            lemma2_to64_rest();
            assert(self.coder().states =~= fresh_coder(N as nat, pow2(23)).states);
            assert(self.dst@.subrange(self.ptr as int, self.dst@.len() as int) =~= Seq::<
                u8,
            >::empty());
            assert(self.coder().stream =~= fresh_coder(N as nat, pow2(23)).stream);
        }
    }

    fn put_at(&mut self, channel: usize, symbol: &ByteRansEncSymbol) {
        let ghost m0 = self.coder();
        let ghost s = symbol.sym();
        let ghost lim = x_threshold(pow2(23), 8, s);
        proof {
            symbol.wf_facts();
            lemma2_to64();
            lemma2_to64_rest();
            lemma_pow2_adds(23, 8);
            assert(m0.states[channel as int] == self.states@[channel as int]);
            lemma_enc_put_parts(self.states@[channel as int] as nat, s, 23, 8);
        }
        let ghost em_all = enc_emit(self.states@[channel as int] as nat, lim, 8).0;
        let mut x = self.states[channel];
        let x_max = symbol.x_max;
        let ghost mut written = Seq::<nat>::empty();
        proof {
            assert(written + enc_emit(x as nat, lim, 8).0 =~= em_all);
            assert(written.reverse() + m0.stream =~= m0.stream);
        }
        while x >= x_max
            invariant
                symbol.wf(),
                s == symbol.sym(),
                valid_sym(s),
                s.scale <= 16,
                lim == x_threshold(pow2(23), 8, s),
                x_max as nat == lim,
                1 <= lim <= pow2(31),
                (x as nat) < pow2(31),
                self.states@ == old(self).states@,
                self.dst@.len() == old(self).dst@.len(),
                self.states@.len() == N,
                channel < N,
                self.ptr <= self.dst@.len(),
                em_all.len() <= old(self).ptr,
                written + enc_emit(x as nat, lim, 8).0 == em_all,
                enc_emit(x as nat, lim, 8).1 == enc_emit(
                    old(self).states@[channel as int] as nat,
                    lim,
                    8,
                ).1,
                self.ptr == old(self).ptr - written.len(),
                bytes_le_units(self.dst@.subrange(self.ptr as int, self.dst@.len() as int), 1)
                    == written.reverse() + m0.stream,
            decreases x,
        {
            proof {
                lemma2_to64();
                lemma_u32_shr_is_div(x, 8);
                lemma_u32_low_bits_mask_is_mod(x, 8);
                lemma_low_bits_mask_values();
                lemma_mod_bound(x as int, 256);
                assert(enc_emit(x as nat, lim, 8).0.len() >= 1);
                assert(written.len() < em_all.len());
            }
            let u = (x & 0xff) as u8;
            let ghost prev_suffix = self.dst@.subrange(self.ptr as int, self.dst@.len() as int);
            self.ptr = self.ptr - 1;
            self.dst[self.ptr] = u;
            x = x >> 8;
            proof {
                let new_suffix = self.dst@.subrange(self.ptr as int, self.dst@.len() as int);
                assert(new_suffix =~= seq![u] + prev_suffix);
                assert(crate::model::unit_le_bytes(u as nat, 1) =~= seq![u]) by {
                    lemma_small_mod(u as nat, 256);
                    assert(crate::model::unit_le_bytes((u as nat) / 256, 0) =~= Seq::<
                        u8,
                    >::empty());
                }
                lemma_bytes_le_units_prepend(u as nat, prev_suffix, 1);
                let written2 = written + seq![u as nat];
                assert(written2.reverse() =~= seq![u as nat] + written.reverse());
                assert(written2.reverse() + m0.stream =~= seq![u as nat] + (written.reverse()
                    + m0.stream));
                assert(written2 + enc_emit(x as nat, lim, 8).0 =~= em_all);
                written = written2;
            }
        }
        proof {
            assert(enc_emit(x as nat, lim, 8).0 =~= Seq::<nat>::empty());
            assert(written =~= em_all);
            assert(written + enc_emit(x as nat, lim, 8).0 =~= written);
            assert(x as nat == enc_emit(old(self).states@[channel as int] as nat, lim, 8).1);
        }
        // Fast division by freq through the precomputed reciprocal.
        proof {
            assert((x as u64) * (symbol.rcp_freq as u64) < pow2(63)) by (nonlinear_arith)
                requires
                    (x as nat) < pow2(31),
                    (symbol.rcp_freq as nat) < pow2(32),
                    pow2(63) == pow2(31) * pow2(32),
            ;
            assert(pow2(63) == pow2(31) * pow2(32)) by {
                lemma_pow2_adds(31, 32);
            }
            assert(pow2(63) < u64::MAX) by {
                lemma2_to64_rest();
            }
        }
        let prod: u64 = (x as u64) * (symbol.rcp_freq as u64);
        proof {
            lemma_u64_shr_is_div(prod, 32);
            lemma_pow2_adds(32, 31);
            lemma_multiply_divide_lt(prod as int, pow2(32) as int, pow2(31) as int);
            lemma2_to64_rest();
        }
        let q_hi = (prod >> 32) as u32;
        let q = q_hi >> symbol.rcp_shift;
        let ghost xr = x as nat;
        let ghost f = s.freq;
        let ghost scale_val = pow2(s.scale);
        proof {
            lemma_pow2_pos(s.scale);
            lemma_u32_shr_is_div(q_hi, symbol.rcp_shift);
            if f < 2 {
                // rcp_freq is all ones; the quotient is x - 1 and the bias
                // absorbs the difference.
                lemma_reciprocal_one(xr, 32);
                assert(symbol.rcp_freq as nat == (pow2(32) - 1) as nat);
                assert(q_hi as nat == xr - 1);
                assert(pow2(0) == 1);
                lemma_div_basics_2(q_hi as int);
                assert(q as nat == xr - 1);
                assert(xr / 1 == xr && xr % 1 == 0) by {
                    lemma_fundamental_div_mod(xr as int, 1);
                    lemma_small_mod(0, 1);
                    assert(xr == 1 * xr + 0);
                    vstd::arithmetic::div_mod::lemma_fundamental_div_mod_converse(
                        xr as int,
                        1,
                        xr as int,
                        0,
                    );
                }
                assert(enc_step(xr, s) == xr * scale_val + s.cum) by (nonlinear_arith)
                    requires
                        enc_step(xr, s) == (xr / 1) * scale_val + xr % 1 + s.cum,
                        xr / 1 == xr,
                        xr % 1 == 0,
                ;
                assert(x as nat + symbol.bias as nat + (q as nat) * (symbol.cmpl_freq as nat)
                    == enc_step(xr, s)) by (nonlinear_arith)
                    requires
                        enc_step(xr, s) == xr * scale_val + s.cum,
                        x as nat == xr,
                        1 <= xr,
                        q as nat == xr - 1,
                        symbol.bias as nat == s.cum + scale_val - 1,
                        symbol.cmpl_freq as nat == scale_val - f,
                        f == 1,
                        1 <= scale_val,
                ;
            } else {
                let sh = symbol.rcp_shift as nat + 1;
                lemma_reciprocal_div(xr, f, sh, 31, symbol.rcp_freq as nat);
                assert((xr * (symbol.rcp_freq as nat)) / pow2(31 + sh) == xr / f);
                lemma_pow2_adds(32, (sh - 1) as nat);
                lemma_pow2_pos((sh - 1) as nat);
                lemma_div_denominator(
                    (xr * (symbol.rcp_freq as nat)) as int,
                    pow2(32) as int,
                    pow2((sh - 1) as nat) as int,
                );
                assert(q as nat == (xr * (symbol.rcp_freq as nat)) / (pow2(32) * pow2(
                    (sh - 1) as nat,
                )));
                assert(32 + (sh - 1) as nat == 31 + sh);
                assert(q as nat == xr / f);
                lemma_fundamental_div_mod(xr as int, f as int);
                lemma_mod_bound(xr as int, f as int);
                let p = xr / f;
                let r = xr % f;
                assert((q as nat) * (symbol.cmpl_freq as nat) == p * ((scale_val - f) as nat));
                assert(p * ((scale_val - f) as nat) + xr == p * scale_val + r) by (nonlinear_arith)
                    requires
                        xr == f * p + r,
                        f <= scale_val,
                        0 <= r,
                        0 <= p,
                ;
                assert(enc_step(xr, s) == p * scale_val + r + s.cum);
                assert(x as nat + symbol.bias as nat + (q as nat) * (symbol.cmpl_freq as nat)
                    == enc_step(xr, s));
            }
            assert((q as nat) * (symbol.cmpl_freq as nat) <= enc_step(xr, s)) by (nonlinear_arith)
                requires
                    x as nat + symbol.bias as nat + (q as nat) * (symbol.cmpl_freq as nat)
                        == enc_step(xr, s),
            ;
            assert(enc_step(xr, s) < pow2(31));
        }
        let x_new = x + symbol.bias + q * symbol.cmpl_freq;
        self.states[channel] = x_new;
        proof {
            let target = crate::model::coder_put_at(m0, channel as int, s, pow2(23), 8);
            assert(self.coder().states =~= target.states);
            assert(self.coder().stream == em_all.reverse() + m0.stream);
            assert(self.coder() == target);
        }
    }

    fn flush_at(&mut self, channel: usize) {
        let ghost m0 = self.coder();
        let x = self.states[channel];
        let ghost prev_suffix = self.dst@.subrange(self.ptr as int, self.dst@.len() as int);
        self.ptr = self.ptr - 4;
        let p = self.ptr;
        proof {
            lemma2_to64();
            lemma_u32_shr_is_div(x, 8);
            lemma_u32_shr_is_div(x, 16);
            lemma_u32_shr_is_div(x, 24);
            lemma_u32_low_bits_mask_is_mod(x, 8);
            lemma_u32_low_bits_mask_is_mod(x >> 8, 8);
            lemma_u32_low_bits_mask_is_mod(x >> 16, 8);
            lemma_u32_low_bits_mask_is_mod(x >> 24, 8);
            lemma_low_bits_mask_values();
        }
        let b0 = (x & 0xff) as u8;
        let b1 = ((x >> 8) & 0xff) as u8;
        let b2 = ((x >> 16) & 0xff) as u8;
        let b3 = ((x >> 24) & 0xff) as u8;
        self.dst[p] = b0;
        self.dst[p + 1] = b1;
        self.dst[p + 2] = b2;
        self.dst[p + 3] = b3;
        proof {
            let xv = x as nat;
            lemma_pow2_adds(8, 8);
            lemma_pow2_adds(16, 8);
            lemma_div_denominator(xv as int, 256, 256);
            lemma_div_denominator(xv as int, 65536, 256);
            let units = crate::model::le_units(xv, 8, 4);
            assert(units =~= seq![
                xv % 256,
                (xv / 256) % 256,
                (xv / 65536) % 256,
                (xv / 16777216) % 256,
            ]) by {
                reveal_with_fuel(crate::model::le_units, 5);
            }
            let new_suffix = self.dst@.subrange(self.ptr as int, self.dst@.len() as int);
            assert(new_suffix =~= seq![b0, b1, b2, b3] + prev_suffix);
            lemma_mod_bound(xv as int, 256);
            lemma_mod_bound((xv / 256) as int, 256);
            lemma_mod_bound((xv / 65536) as int, 256);
            lemma_mod_bound((xv / 16777216) as int, 256);
            assert(bytes_le_units(new_suffix, 1) =~= units + bytes_le_units(prev_suffix, 1)) by {
                lemma_small_mod(b0 as nat, 256);
                lemma_small_mod(b1 as nat, 256);
                lemma_small_mod(b2 as nat, 256);
                lemma_small_mod(b3 as nat, 256);
                assert(crate::model::unit_le_bytes((b0 as nat) / 256, 0) =~= Seq::<u8>::empty());
                assert(crate::model::unit_le_bytes((b1 as nat) / 256, 0) =~= Seq::<u8>::empty());
                assert(crate::model::unit_le_bytes((b2 as nat) / 256, 0) =~= Seq::<u8>::empty());
                assert(crate::model::unit_le_bytes((b3 as nat) / 256, 0) =~= Seq::<u8>::empty());
                assert(crate::model::unit_le_bytes(b0 as nat, 1) =~= seq![b0]);
                assert(crate::model::unit_le_bytes(b1 as nat, 1) =~= seq![b1]);
                assert(crate::model::unit_le_bytes(b2 as nat, 1) =~= seq![b2]);
                assert(crate::model::unit_le_bytes(b3 as nat, 1) =~= seq![b3]);
                lemma_bytes_le_units_prepend(b3 as nat, prev_suffix, 1);
                lemma_bytes_le_units_prepend(b2 as nat, seq![b3] + prev_suffix, 1);
                lemma_bytes_le_units_prepend(b1 as nat, seq![b2, b3] + prev_suffix, 1);
                lemma_bytes_le_units_prepend(b0 as nat, seq![b1, b2, b3] + prev_suffix, 1);
                assert(seq![b1] + (seq![b2, b3] + prev_suffix) =~= seq![b1, b2, b3] + prev_suffix);
                assert(seq![b2] + (seq![b3] + prev_suffix) =~= seq![b2, b3] + prev_suffix);
                assert(seq![b0] + (seq![b1, b2, b3] + prev_suffix) =~= new_suffix);
            }
            let target = crate::model::coder_flush_at(m0, channel as int, 8, 4);
            assert(self.coder().states =~= target.states);
            assert(self.coder() == target);
        }
    }

    fn data(&self) -> (r: &[u8]) {
        proof {
            lemma_units_bytes_roundtrip(
                self.dst@.subrange(self.ptr as int, self.dst@.len() as int),
                1,
            );
        }
        let r = slice_subrange(self.dst.as_slice(), self.ptr, self.dst.len());
        r
    }
}

impl RansEncoder for ByteRansEncoderMulti<1> {

}

/// rANS encoder symbol - byte-aligned version.
///
/// Holds the renormalization threshold and the fixed-point reciprocal of
/// the frequency, precomputed once so that the encode path divides by the
/// frequency with a widening multiply and shifts.
#[derive(Clone, Copy)]
pub struct ByteRansEncSymbol {
    x_max: u32,
    rcp_freq: u32,
    bias: u32,
    cmpl_freq: u32,
    rcp_shift: u32,
    sym: Ghost<SymModel>,
}

impl RansEncSymbol for ByteRansEncSymbol {
    closed spec fn sym(&self) -> SymModel {
        self.sym@
    }

    closed spec fn wf(&self) -> bool {
        let s = self.sym@;
        &&& valid_sym(s)
        &&& s.scale <= 16
        &&& self.x_max as nat == x_threshold(pow2(23), 8, s)
        &&& self.cmpl_freq as nat == pow2(s.scale) - s.freq
        &&& if s.freq < 2 {
            &&& self.rcp_freq as nat == (pow2(32) - 1) as nat
            &&& self.rcp_shift == 0
            &&& self.bias as nat == s.cum + pow2(s.scale) - 1
        } else {
            let sh = self.rcp_shift as nat + 1;
            &&& s.freq <= pow2(sh)
            &&& pow2((sh - 1) as nat) < s.freq
            &&& sh <= 16
            &&& self.rcp_freq as nat == (pow2(31 + sh) + s.freq - 1) as nat / s.freq
            &&& self.bias == s.cum
        }
    }

    open spec fn scale_limit() -> nat {
        16
    }

    proof fn wf_facts(&self) {
    }

    fn new(cum_freq: u32, freq: u32, scale_bits: u32) -> (r: Self) {
        let ghost s = SymModel {
            cum: cum_freq as nat,
            freq: freq as nat,
            scale: scale_bits as nat,
        };
        proof {
            lemma2_to64();
            lemma2_to64_rest();
            lemma_pow2_pos(scale_bits as nat);
            if (scale_bits as nat) < 16 {
                lemma_pow2_strictly_increases(scale_bits as nat, 16);
            }
            lemma_u32_shr_is_div(RANS_BYTE_L, scale_bits);
            lemma_pow2_subtracts(scale_bits as nat, 23);
            assert(RANS_BYTE_L >> scale_bits == pow2((23 - scale_bits) as nat));
            lemma_u32_shl_is_mul(RANS_BYTE_L >> scale_bits, 8);
            lemma_pow2_adds((23 - scale_bits) as nat, 8);
            if (scale_bits as nat) >= 1 {
                lemma_pow2_strictly_increases((23 - scale_bits) as nat + 8, 31);
            }
            assert((RANS_BYTE_L >> scale_bits) << 8 == pow2((31 - scale_bits) as nat));
            assert(pow2((31 - scale_bits) as nat) * pow2(scale_bits as nat) == pow2(31)) by {
                lemma_pow2_adds((31 - scale_bits) as nat, scale_bits as nat);
            }
            assert(pow2((31 - scale_bits) as nat) * freq <= pow2(31)) by (nonlinear_arith)
                requires
                    freq as nat <= pow2(scale_bits as nat),
                    pow2((31 - scale_bits) as nat) * pow2(scale_bits as nat) == pow2(31),
                    0 <= pow2((31 - scale_bits) as nat),
            ;
            lemma_u32_shl_is_mul(1u32, scale_bits);
            assert(x_threshold(pow2(23), 8, s) == pow2((31 - scale_bits) as nat) * freq) by {
                lemma_pow2_subtracts(scale_bits as nat, 23);
                lemma_pow2_adds((23 - scale_bits) as nat, 8);
            }
        }
        let x_max = ((RANS_BYTE_L >> scale_bits) << 8) * freq;
        let cmpl_freq = (1u32 << scale_bits) - freq;
        if freq < 2 {
            let bias = cum_freq + (1u32 << scale_bits) - 1;
            ByteRansEncSymbol {
                x_max,
                rcp_freq: u32::MAX,
                bias,
                cmpl_freq,
                rcp_shift: 0,
                sym: Ghost(s),
            }
        } else {
            let mut shift: u32 = 0;
            proof {
                if (scale_bits as nat) < 16 {
                    lemma_pow2_strictly_increases(scale_bits as nat, 16);
                }
            }
            while freq > (1u32 << shift)
                invariant
                    shift <= 16,
                    2 <= freq,
                    freq as nat <= pow2(16),
                    shift >= 1 ==> pow2((shift - 1) as nat) < freq as nat,
                decreases 16 - shift,
            {
                proof {
                    lemma2_to64();
                    lemma2_to64_rest();
                    if shift < 16 {
                        lemma_pow2_strictly_increases(shift as nat, 16);
                    }
                    lemma_u32_shl_is_mul(1u32, shift);
                    assert(shift < 16) by {
                        if shift == 16 {
                            assert(freq as nat > pow2(16));
                        }
                    }
                    if shift + 1 < 16 {
                        lemma_pow2_strictly_increases((shift + 1) as nat, 16);
                    }
                    lemma_u32_shl_is_mul(1u32, (shift + 1) as u32);
                }
                shift = shift + 1;
            }
            proof {
                lemma2_to64();
                lemma2_to64_rest();
                if shift < 16 {
                    lemma_pow2_strictly_increases(shift as nat, 16);
                }
                lemma_u32_shl_is_mul(1u32, shift);
                assert(shift >= 1) by {
                    if shift == 0 {
                        assert(freq as nat <= pow2(0));
                    }
                }
                lemma_u64_shl_is_mul(1u64, (shift + 31) as u64);
                lemma2_to64_rest();
                if shift + 31 < 63 {
                    lemma_pow2_strictly_increases((shift + 31) as nat, 63);
                }
                lemma_reciprocal_div(0, freq as nat, shift as nat, 31, (pow2((shift + 31) as nat)
                    + freq - 1) as nat / (freq as nat));
            }
            let big: u64 = 1u64 << (shift + 31);
            let rcp_freq = ((big + (freq as u64) - 1) / (freq as u64)) as u32;
            ByteRansEncSymbol {
                x_max,
                rcp_freq,
                bias: cum_freq,
                cmpl_freq,
                rcp_shift: shift - 1,
                sym: Ghost(s),
            }
        }
    }
}

} // verus!
