use crate::model::{
    coder_advance_at, coder_dec_step_at, coder_renorm_at, coder_renorm_upto, dec_renorm_ok,
    dec_slot, dec_step, renorm_upto_ok, CoderModel, SymModel,
};
use vstd::arithmetic::power2::pow2;
use vstd::prelude::*;

verus! {

/// The symbol model an `advance` call works with: the decode symbol's
/// pair together with the `scale_bits` passed alongside it.
pub open spec fn dec_sym_model<S: RansDecSymbol>(symbol: &S, scale_bits: u32) -> SymModel {
    SymModel { cum: symbol.cum_val(), freq: symbol.freq_val(), scale: scale_bits as nat }
}

/// Interleaved multi-stream rANS decoder interface.
///
/// `N` is the channel count. An implementation fixes a normalization
/// floor `pow2(Self::floor_bits())`, an I/O unit width and a state width;
/// every operation's contract is stated over the [`CoderModel`] view
/// returned by [`Self::coder`]: the per-channel states and the stream of
/// units not yet consumed.
pub trait RansDecoderMulti<const N: usize>: Sized {
    /// Type of a Symbol value that can be decoded using this decoder.
    type Symbol: RansDecSymbol;

    /// Base-2 logarithm of this variant's normalization floor.
    spec fn floor_bits() -> nat;

    /// Bits per consumed I/O unit.
    spec fn unit_bits() -> nat;

    /// Bits in a channel state.
    spec fn state_bits() -> nat;

    /// The model view of this decoder: per-channel states, and the units
    /// not yet consumed, next unit first.
    spec fn coder(&self) -> CoderModel;

    /// The structural invariant that construction establishes and every
    /// operation preserves.
    spec fn inv(&self) -> bool;

    /// The variant's parameters fit together.
    proof fn params_ok()
        ensures
            1 <= Self::unit_bits(),
            1 <= Self::floor_bits(),
            Self::floor_bits() + Self::unit_bits() <= Self::state_bits(),
    ;

    /// What the invariant gives a caller: `N` channel states within the
    /// state width, and every pending unit within the unit width.
    proof fn inv_facts(&self)
        requires
            self.inv(),
        ensures
            self.coder().states.len() == N,
            forall|c: int|
                0 <= c < N ==> #[trigger] self.coder().states[c] < pow2(Self::state_bits()),
            forall|i: int|
                0 <= i < self.coder().stream.len() ==> #[trigger] self.coder().stream[i] < pow2(
                    Self::unit_bits(),
                ),
    ;

    /// Gets the cumulative frequency slot for the current symbol at the
    /// specified channel. Note that this does not advance the data
    /// position; for that, use [`Self::advance_at()`].
    fn get_at(&mut self, channel: usize, scale_bits: u32) -> (r: u32)
        requires
            old(self).inv(),
            channel < N,
            scale_bits < 32,
        ensures
            *final(self) == *old(self),
            r == dec_slot(old(self).coder().states[channel as int], scale_bits as nat),
    ;

    /// Pops a single symbol from the channel state, without doing
    /// renormalization or touching the pending stream.
    fn advance_step_at(&mut self, channel: usize, symbol: &Self::Symbol, scale_bits: u32)
        requires
            old(self).inv(),
            channel < N,
            scale_bits < 32,
            0 <= dec_step(
                old(self).coder().states[channel as int],
                dec_sym_model(symbol, scale_bits),
            ),
            symbol.freq_val() * (old(self).coder().states[channel as int] / pow2(
                scale_bits as nat,
            )) + dec_slot(old(self).coder().states[channel as int], scale_bits as nat) < pow2(
                Self::state_bits(),
            ),
        ensures
            final(self).inv(),
            final(self).coder() == coder_dec_step_at(
                old(self).coder(),
                channel as int,
                dec_sym_model(symbol, scale_bits),
            ),
    ;

    /// Renormalizes the given channel, consuming units from the front of
    /// the pending stream until the state reaches the floor.
    fn renorm_at(&mut self, channel: usize)
        requires
            old(self).inv(),
            channel < N,
            dec_renorm_ok(
                old(self).coder().states[channel as int],
                old(self).coder().stream,
                pow2(Self::floor_bits()),
                Self::unit_bits(),
            ),
        ensures
            final(self).inv(),
            final(self).coder() == coder_renorm_at(
                old(self).coder(),
                channel as int,
                pow2(Self::floor_bits()),
                Self::unit_bits(),
            ),
    ;

    /// Advances the channel past a decoded symbol: equivalent to calling
    /// [`Self::advance_step_at()`] and then [`Self::renorm_at()`].
    fn advance_at(&mut self, channel: usize, symbol: &Self::Symbol, scale_bits: u32)
        requires
            old(self).inv(),
            channel < N,
            scale_bits < 32,
            0 <= dec_step(
                old(self).coder().states[channel as int],
                dec_sym_model(symbol, scale_bits),
            ),
            symbol.freq_val() * (old(self).coder().states[channel as int] / pow2(
                scale_bits as nat,
            )) + dec_slot(old(self).coder().states[channel as int], scale_bits as nat) < pow2(
                Self::state_bits(),
            ),
            dec_renorm_ok(
                dec_step(
                    old(self).coder().states[channel as int],
                    dec_sym_model(symbol, scale_bits),
                ) as nat,
                old(self).coder().stream,
                pow2(Self::floor_bits()),
                Self::unit_bits(),
            ),
        ensures
            final(self).inv(),
            final(self).coder() == coder_advance_at(
                old(self).coder(),
                channel as int,
                dec_sym_model(symbol, scale_bits),
                pow2(Self::floor_bits()),
                Self::unit_bits(),
            ),
    {
        proof {
            old(self).inv_facts();
        }
        self.advance_step_at(channel, symbol, scale_bits);
        proof {
            self.inv_facts();
        }
        self.renorm_at(channel);
    }

    /// Renormalizes every channel, in ascending channel order. This
    /// ordering, combined with the encoder's flush ordering, is what makes
    /// interleaved streams reproducible.
    fn renorm_all(&mut self)
        requires
            old(self).inv(),
            renorm_upto_ok(
                old(self).coder(),
                N as int,
                pow2(Self::floor_bits()),
                Self::unit_bits(),
            ),
        ensures
            final(self).inv(),
            final(self).coder() == coder_renorm_upto(
                old(self).coder(),
                N as int,
                pow2(Self::floor_bits()),
                Self::unit_bits(),
            ),
    {
        let ghost l = pow2(Self::floor_bits());
        let ghost b = Self::unit_bits();
        proof {
            crate::model::lemma_renorm_upto_ok_prefix(old(self).coder(), N as int, l, b);
        }
        let mut i: usize = 0;
        while i < N
            invariant
                i <= N,
                self.inv(),
                l == pow2(Self::floor_bits()),
                b == Self::unit_bits(),
                self.coder() == coder_renorm_upto(old(self).coder(), i as int, l, b),
                renorm_upto_ok(old(self).coder(), N as int, l, b),
                forall|j: int|
                    0 <= j <= N ==> #[trigger] renorm_upto_ok(old(self).coder(), j, l, b),
            decreases N - i,
        {
            proof {
                assert(renorm_upto_ok(old(self).coder(), i as int + 1, l, b));
            }
            self.renorm_at(i);
            i = i + 1;
        }
    }
}

/// Single-stream rANS decoder interface.
pub trait RansDecoder: RansDecoderMulti<1> {
    /// Gets the cumulative frequency slot for the current symbol. Note
    /// that this does not advance the data position; for that, use
    /// [`Self::advance()`].
    fn get(&mut self, scale_bits: u32) -> (r: u32)
        requires
            old(self).inv(),
            scale_bits < 32,
        ensures
            *final(self) == *old(self),
            r == dec_slot(old(self).coder().states[0], scale_bits as nat),
    {
        self.get_at(0, scale_bits)
    }

    /// Advances the data position after reading a symbol.
    fn advance(&mut self, symbol: &Self::Symbol, scale_bits: u32)
        requires
            old(self).inv(),
            scale_bits < 32,
            0 <= dec_step(old(self).coder().states[0], dec_sym_model(symbol, scale_bits)),
            symbol.freq_val() * (old(self).coder().states[0] / pow2(scale_bits as nat)) + dec_slot(
                old(self).coder().states[0],
                scale_bits as nat,
            ) < pow2(Self::state_bits()),
            dec_renorm_ok(
                dec_step(old(self).coder().states[0], dec_sym_model(symbol, scale_bits)) as nat,
                old(self).coder().stream,
                pow2(Self::floor_bits()),
                Self::unit_bits(),
            ),
        ensures
            final(self).inv(),
            final(self).coder() == coder_advance_at(
                old(self).coder(),
                0,
                dec_sym_model(symbol, scale_bits),
                pow2(Self::floor_bits()),
                Self::unit_bits(),
            ),
    {
        self.advance_at(0, symbol, scale_bits);
    }
}

/// A symbol that can be decoded using a rANS decoder.
pub trait RansDecSymbol: Sized {
    /// The cumulative frequency held.
    spec fn cum_val(&self) -> nat;

    /// The frequency held.
    spec fn freq_val(&self) -> nat;

    /// The variant's bound on `cum_freq + freq`.
    spec fn val_limit() -> nat;

    /// Creates a new rANS decoder symbol instance.
    fn new(cum_freq: u32, freq: u32) -> (r: Self)
        requires
            cum_freq + freq <= Self::val_limit(),
        ensures
            r.cum_val() == cum_freq,
            r.freq_val() == freq,
    ;

    /// Returns this symbol's cumulative frequency.
    fn cum_freq(&self) -> (r: u32)
        ensures
            r == self.cum_val(),
    ;

    /// Returns this symbol's frequency.
    fn freq(&self) -> (r: u32)
        ensures
            r == self.freq_val(),
    ;
}

} // verus!
