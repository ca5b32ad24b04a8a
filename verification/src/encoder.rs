use crate::model::{
    coder_flush_at, coder_flush_upto, coder_put_at, enc_put, fresh_coder, units_le_bytes,
    CoderModel, SymModel,
};
use vstd::arithmetic::power2::pow2;
use vstd::prelude::*;

verus! {

/// Interleaved multi-stream rANS encoder interface.
///
/// `N` is the channel count. An implementation fixes a normalization
/// floor `pow2(Self::floor_bits())` and an I/O unit width; every
/// operation's contract is stated over the [`CoderModel`] view returned
/// by [`Self::coder`].
pub trait RansEncoderMulti<const N: usize>: Sized {
    /// Type of a Symbol value that can be encoded using this encoder.
    type Symbol: RansEncSymbol;

    /// Base-2 logarithm of this variant's normalization floor.
    spec fn floor_bits() -> nat;

    /// Bits per emitted I/O unit.
    spec fn unit_bits() -> nat;

    /// Bytes per emitted I/O unit.
    spec fn unit_bytes() -> nat;

    /// I/O units a flushed state occupies.
    spec fn state_units() -> nat;

    /// The model view of this encoder: per-channel states, and the
    /// stream emitted so far (most recent unit first).
    spec fn coder(&self) -> CoderModel;

    /// Units of space left in front of the write cursor.
    spec fn free_units(&self) -> nat;

    /// Total capacity of the internal buffer, in units.
    spec fn cap_units(&self) -> nat;

    /// The structural invariant that construction establishes and every
    /// operation preserves.
    spec fn inv(&self) -> bool;

    /// The variant's parameters fit together: units are whole bytes, a
    /// symbol's scale never exceeds the floor, and a flushed state fills
    /// its units exactly.
    proof fn params_ok()
        ensures
            1 <= Self::unit_bytes(),
            Self::unit_bits() == 8 * Self::unit_bytes(),
            1 <= Self::floor_bits(),
            Self::Symbol::scale_limit() <= Self::floor_bits(),
            Self::floor_bits() + Self::unit_bits() <= Self::unit_bits() * Self::state_units(),
    ;

    /// What the invariant gives a caller: `N` channel states, each inside
    /// the working interval, every emitted unit within the unit width,
    /// and the free space plus the emitted stream filling the capacity.
    proof fn inv_facts(&self)
        requires
            self.inv(),
        ensures
            self.coder().states.len() == N,
            forall|c: int|
                0 <= c < N ==> pow2(Self::floor_bits()) <= #[trigger] self.coder().states[c] < pow2(
                    Self::floor_bits(),
                ) * pow2(Self::unit_bits()),
            forall|i: int|
                0 <= i < self.coder().stream.len() ==> #[trigger] self.coder().stream[i] < pow2(
                    Self::unit_bits(),
                ),
            self.coder().stream.len() + self.free_units() == self.cap_units(),
    ;

    /// Resets this encoder's internal state, so that the internal buffer
    /// becomes empty and every channel state returns to the floor. The
    /// view afterwards equals a freshly constructed encoder's, so by
    /// [`Self::data`]'s contract the two are indistinguishable.
    fn reset(&mut self)
        requires
            old(self).inv(),
        ensures
            final(self).inv(),
            final(self).coder() == fresh_coder(N as nat, pow2(Self::floor_bits())),
            final(self).free_units() == old(self).cap_units(),
            final(self).cap_units() == old(self).cap_units(),
    ;

    /// Puts a symbol into the specified channel: renormalizes that
    /// channel's state, emitting units to the front of the stream, then
    /// ingests the symbol.
    fn put_at(&mut self, channel: usize, symbol: &Self::Symbol)
        requires
            old(self).inv(),
            channel < N,
            symbol.wf(),
            enc_put(
                old(self).coder().states[channel as int],
                symbol.sym(),
                pow2(Self::floor_bits()),
                Self::unit_bits(),
            ).0.len() <= old(self).free_units(),
        ensures
            final(self).inv(),
            final(self).coder() == coder_put_at(
                old(self).coder(),
                channel as int,
                symbol.sym(),
                pow2(Self::floor_bits()),
                Self::unit_bits(),
            ),
            final(self).free_units() == old(self).free_units() - enc_put(
                old(self).coder().states[channel as int],
                symbol.sym(),
                pow2(Self::floor_bits()),
                Self::unit_bits(),
            ).0.len(),
            final(self).cap_units() == old(self).cap_units(),
    ;

    /// Flushes the given channel's state into the buffer, least
    /// significant unit first. The channel is then logically dead until
    /// the next [`Self::reset`].
    fn flush_at(&mut self, channel: usize)
        requires
            old(self).inv(),
            channel < N,
            Self::state_units() <= old(self).free_units(),
        ensures
            final(self).inv(),
            final(self).coder() == coder_flush_at(
                old(self).coder(),
                channel as int,
                Self::unit_bits(),
                Self::state_units(),
            ),
            final(self).free_units() == old(self).free_units() - Self::state_units(),
            final(self).cap_units() == old(self).cap_units(),
    ;

    /// Flushes every channel, in ascending channel order. This order is
    /// part of the wire contract.
    fn flush_all(&mut self)
        requires
            old(self).inv(),
            N * Self::state_units() <= old(self).free_units(),
        ensures
            final(self).inv(),
            final(self).coder() == coder_flush_upto(
                old(self).coder(),
                N as int,
                Self::unit_bits(),
                Self::state_units(),
            ),
            final(self).free_units() == old(self).free_units() - N * Self::state_units(),
            final(self).cap_units() == old(self).cap_units(),
    {
        let mut i: usize = 0;
        while i < N
            invariant
                i <= N,
                self.inv(),
                self.coder() == coder_flush_upto(
                    old(self).coder(),
                    i as int,
                    Self::unit_bits(),
                    Self::state_units(),
                ),
                self.free_units() == old(self).free_units() - i * Self::state_units(),
                self.cap_units() == old(self).cap_units(),
                N * Self::state_units() <= old(self).free_units(),
            decreases N - i,
        {
            proof {
                assert((i + 1) * Self::state_units() <= N * Self::state_units()
                    && i * Self::state_units() + Self::state_units() == (i + 1)
                    * Self::state_units()) by (nonlinear_arith)
                    requires
                        i < N,
                        Self::state_units() >= 0,
                ;
            }
            self.flush_at(i);
            i = i + 1;
        }
        proof {
            assert(i * Self::state_units() == N * Self::state_units()) by (nonlinear_arith)
                requires
                    i == N,
            ;
        }
    }

    /// Returns this encoder's emitted bytes: each unit as bytes, least
    /// significant first, most recently emitted unit first.
    fn data(&self) -> (r: &[u8])
        requires
            self.inv(),
        ensures
            r@ == units_le_bytes(self.coder().stream, Self::unit_bytes()),
    ;

    /// Returns the emitted length in bytes.
    fn len(&self) -> (r: usize)
        requires
            self.inv(),
        ensures
            r == self.coder().stream.len() * Self::unit_bytes(),
    {
        let d = self.data();
        proof {
            Self::params_ok();
            self.inv_facts();
            crate::model::lemma_units_le_bytes_len(self.coder().stream, Self::unit_bytes());
        }
        d.len()
    }

    /// Returns whether nothing has been emitted.
    fn is_empty(&self) -> (r: bool)
        requires
            self.inv(),
        ensures
            r == (self.coder().stream.len() == 0),
    {
        proof {
            Self::params_ok();
            assert(self.coder().stream.len() * Self::unit_bytes() == 0 <==> self.coder().stream.len()
                == 0) by (nonlinear_arith)
                requires
                    Self::unit_bytes() >= 1,
            ;
        }
        self.len() == 0
    }
}

/// Single-stream rANS encoder interface.
pub trait RansEncoder: RansEncoderMulti<1> {
    /// Puts the specified symbol into this encoder.
    fn put(&mut self, symbol: &Self::Symbol)
        requires
            old(self).inv(),
            symbol.wf(),
            enc_put(
                old(self).coder().states[0],
                symbol.sym(),
                pow2(Self::floor_bits()),
                Self::unit_bits(),
            ).0.len() <= old(self).free_units(),
        ensures
            final(self).inv(),
            final(self).coder() == coder_put_at(
                old(self).coder(),
                0,
                symbol.sym(),
                pow2(Self::floor_bits()),
                Self::unit_bits(),
            ),
            final(self).free_units() == old(self).free_units() - enc_put(
                old(self).coder().states[0],
                symbol.sym(),
                pow2(Self::floor_bits()),
                Self::unit_bits(),
            ).0.len(),
            final(self).cap_units() == old(self).cap_units(),
    {
        self.put_at(0, symbol);
    }

    /// Flushes the single channel's state into the buffer.
    fn flush(&mut self)
        requires
            old(self).inv(),
            Self::state_units() <= old(self).free_units(),
        ensures
            final(self).inv(),
            final(self).coder() == coder_flush_at(
                old(self).coder(),
                0,
                Self::unit_bits(),
                Self::state_units(),
            ),
            final(self).free_units() == old(self).free_units() - Self::state_units(),
            final(self).cap_units() == old(self).cap_units(),
    {
        self.flush_at(0);
    }
}

/// A symbol that can be encoded using a rANS encoder.
pub trait RansEncSymbol: Sized {
    /// The `(cum_freq, freq, scale_bits)` triple this symbol stands for.
    spec fn sym(&self) -> SymModel;

    /// The precomputed fields agree with the triple.
    spec fn wf(&self) -> bool;

    /// The variant's largest accepted `scale_bits`.
    spec fn scale_limit() -> nat;

    /// A well-formed symbol is valid and within the scale limit.
    proof fn wf_facts(&self)
        requires
            self.wf(),
        ensures
            crate::model::valid_sym(self.sym()),
            self.sym().scale <= Self::scale_limit(),
    ;

    /// Creates a new rANS encoder symbol instance, precomputing the
    /// reciprocal used to divide by `freq` on the hot path.
    fn new(cum_freq: u32, freq: u32, scale_bits: u32) -> (r: Self)
        requires
            1 <= freq,
            cum_freq + freq <= pow2(scale_bits as nat),
            scale_bits as nat <= Self::scale_limit(),
        ensures
            r.wf(),
            r.sym() == (SymModel {
                cum: cum_freq as nat,
                freq: freq as nat,
                scale: scale_bits as nat,
            }),
    ;
}

} // verus!
