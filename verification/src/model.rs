//! Specification-level model of the rANS state machine.
//!
//! Every executable coder operation in this crate carries an `ensures`
//! clause phrased over the functions here. The model is parameterized by
//! the normalization floor `l` (a power of two) and the I/O granularity
//! `b` in bits, so one set of definitions and laws covers both the
//! byte-aligned variant (`l == pow2(23)`, `b == 8`) and the word-aligned
//! variant (`l == pow2(31)`, `b == 32`). A "unit" is one I/O element of
//! `b` bits, modeled as a `nat` below `pow2(b)`; streams are sequences of
//! units in front-to-back order.

use vstd::arithmetic::div_mod::*;
use vstd::arithmetic::mul::*;
use vstd::arithmetic::power2::*;
use vstd::prelude::*;

verus! {

/// A symbol as the coder sees it: a half-open interval
/// `[cum, cum + freq)` inside the frequency table of denominator
/// `pow2(scale)`.
pub ghost struct SymModel {
    /// Cumulative frequency: the inclusive low end of the interval.
    pub cum: nat,
    /// Frequency: the width of the interval.
    pub freq: nat,
    /// Scale bits: base-2 logarithm of the table denominator.
    pub scale: nat,
}

/// A symbol is valid when its frequency is non-zero and its interval
/// fits inside the table.
pub open spec fn valid_sym(s: SymModel) -> bool {
    1 <= s.freq && s.cum + s.freq <= pow2(s.scale)
}

/// The core rANS ingestion step: `x -> (x / freq) * pow2(scale) + (x % freq) + cum`.
pub open spec fn enc_step(x: nat, s: SymModel) -> nat {
    (x / s.freq) * pow2(s.scale) + (x % s.freq) + s.cum
}

/// What the decoder reads from a state: the slot `x % pow2(scale)`,
/// which falls in the interval of the symbol last ingested.
pub open spec fn dec_slot(x: nat, scale: nat) -> nat {
    x % pow2(scale)
}

/// The core rANS extraction step:
/// `x -> freq * (x / pow2(scale)) + (x % pow2(scale)) - cum`.
/// The result is an `int`: on a state whose slot lies outside the
/// symbol's interval it would be negative.
pub open spec fn dec_step(x: nat, s: SymModel) -> int {
    s.freq * (x / pow2(s.scale)) + (x % pow2(s.scale)) - s.cum
}

/// The renormalization threshold for ingesting symbol `s`: the encoder
/// emits units until the state is below `(l / pow2(scale)) * pow2(b) * freq`.
pub open spec fn x_threshold(l: nat, b: nat, s: SymModel) -> nat {
    (l / pow2(s.scale)) * pow2(b) * s.freq
}

/// Encoder-side renormalization: while the state is at or above `lim`,
/// emit its low `b` bits and shift them out. Returns the emitted units in
/// emission order together with the final state.
pub open spec fn enc_emit(x: nat, lim: nat, b: nat) -> (Seq<nat>, nat)
    decreases x,
    via enc_emit_decreases
{
    if 1 <= lim <= x && b >= 1 {
        let (rest, xf) = enc_emit(x / pow2(b), lim, b);
        (seq![x % pow2(b)] + rest, xf)
    } else {
        (Seq::empty(), x)
    }
}

#[via_fn]
proof fn enc_emit_decreases(x: nat, lim: nat, b: nat) {
    if 1 <= lim <= x && b >= 1 {
        vstd::arithmetic::power2::lemma_pow2_strictly_increases(0, b);
        vstd::arithmetic::power2::lemma2_to64();
        vstd::arithmetic::div_mod::lemma_div_decreases(x as int, pow2(b) as int);
    }
}

/// One whole encoder step for symbol `s`: renormalize, then ingest.
/// Returns the emitted units in emission order and the new state.
pub open spec fn enc_put(x: nat, s: SymModel, l: nat, b: nat) -> (Seq<nat>, nat) {
    let (em, xr) = enc_emit(x, x_threshold(l, b, s), b);
    (em, enc_step(xr, s))
}

/// The `k` units of `x`, least significant first.
pub open spec fn le_units(x: nat, b: nat, k: nat) -> Seq<nat>
    decreases k,
{
    if k == 0 {
        Seq::empty()
    } else {
        seq![x % pow2(b)] + le_units(x / pow2(b), b, (k - 1) as nat)
    }
}

/// The value stored as units in least-significant-first order.
pub open spec fn le_value(units: Seq<nat>, b: nat) -> nat
    decreases units.len(),
{
    if units.len() == 0 {
        0
    } else {
        units[0] + pow2(b) * le_value(units.drop_first(), b)
    }
}

/// Decoder-side renormalization: while the state is below `l`, shift in
/// the next unit from the front of the stream. Returns the refilled state
/// and the remaining stream.
pub open spec fn dec_renorm(x: nat, stream: Seq<nat>, l: nat, b: nat) -> (nat, Seq<nat>)
    decreases stream.len(),
{
    if x < l && stream.len() >= 1 {
        dec_renorm(x * pow2(b) + stream[0], stream.drop_first(), l, b)
    } else {
        (x, stream)
    }
}

/// Decoder renormalization succeeds: the stream holds enough units to
/// refill the state up to the floor `l`.
pub open spec fn dec_renorm_ok(x: nat, stream: Seq<nat>, l: nat, b: nat) -> bool {
    dec_renorm(x, stream, l, b).0 >= l
}

/// The extraction step undoes the ingestion step: after `enc_step` the
/// slot lands inside the symbol's interval, and `dec_step` recovers the
/// previous state exactly.
pub proof fn lemma_step_inverse(x: nat, s: SymModel)
    requires
        valid_sym(s),
    ensures
        dec_slot(enc_step(x, s), s.scale) == s.cum + x % s.freq,
        s.cum <= dec_slot(enc_step(x, s), s.scale) < s.cum + s.freq,
        dec_step(enc_step(x, s), s) == x,
{
    let m = pow2(s.scale);
    let f = s.freq;
    lemma_pow2_pos(s.scale);
    lemma_fundamental_div_mod(x as int, f as int);
    lemma_mod_bound(x as int, f as int);
    let q = x / f;
    let r = x % f;
    let e = enc_step(x, s);
    assert(e == q * m + (r + s.cum));
    assert(r + s.cum < m);
    lemma_fundamental_div_mod_converse(e as int, m as int, q as int, (r + s.cum) as int);
    assert(e % m == r + s.cum);
    assert(e / m == q);
    assert(f * (e / m) == q * f) by (nonlinear_arith)
        requires
            e / m == q,
            f >= 0,
    ;
    assert(dec_step(e, s) == q * f + r);
}

/// Bounds for the ingestion step: starting from a renormalized state
/// (below the threshold, and either at or above the floor or fresh from
/// an emission), the new state lands inside the working interval
/// `[l, l * pow2(b))`.
pub proof fn lemma_enc_step_bounds(x: nat, s: SymModel, l: nat, b: nat)
    requires
        valid_sym(s),
        pow2(s.scale) <= l,
        l % pow2(s.scale) == 0,
        b >= 1,
        x < x_threshold(l, b, s),
        x >= l || x >= (l / pow2(s.scale)) * s.freq,
    ensures
        l <= enc_step(x, s) < l * pow2(b),
{
    let m = pow2(s.scale);
    let f = s.freq;
    let k = l / m;
    let w = pow2(b);
    lemma_pow2_pos(s.scale);
    lemma_pow2_pos(b);
    lemma_fundamental_div_mod(l as int, m as int);
    assert(l == k * m);
    lemma_fundamental_div_mod(x as int, f as int);
    lemma_mod_bound(x as int, f as int);
    let q = x / f;
    let r = x % f;
    // Upper bound: x <= k * w * f - 1 gives q <= k * w - 1.
    assert(q <= k * w - 1) by (nonlinear_arith)
        requires
            x == f * q + r,
            0 <= r < f,
            x < k * w * f,
            1 <= f,
            0 <= q,
    ;
    assert(enc_step(x, s) < l * w) by (nonlinear_arith)
        requires
            enc_step(x, s) == q * m + r + s.cum,
            q <= k * w - 1,
            r < f,
            s.cum + f <= m,
            l == k * m,
            0 <= q,
            0 <= r,
            1 <= m,
            1 <= w,
    ;
    // Lower bound.
    if x >= k * f {
        assert(q >= k) by (nonlinear_arith)
            requires
                x == f * q + r,
                0 <= r < f,
                x >= k * f,
                1 <= f,
                0 <= q,
                0 <= k,
        ;
        assert(enc_step(x, s) >= l) by (nonlinear_arith)
            requires
                enc_step(x, s) == q * m + r + s.cum,
                q >= k,
                l == k * m,
                0 <= r,
                0 <= s.cum,
                0 <= m,
                0 <= k,
        ;
    } else {
        assert(x >= l);
        assert(enc_step(x, s) >= x) by (nonlinear_arith)
            requires
                enc_step(x, s) == q * m + r + s.cum,
                x == f * q + r,
                f <= m,
                0 <= q,
                0 <= r,
                0 <= s.cum,
        ;
    }
}

/// Properties of encoder renormalization: the final state is below the
/// threshold; when nothing was emitted it is the original state, and when
/// something was emitted it is at least `lim / pow2(b)`; all emitted
/// units fit in `b` bits.
pub proof fn lemma_enc_emit_props(x: nat, lim: nat, b: nat)
    requires
        1 <= lim,
        b >= 1,
    ensures
        ({
            let (em, xr) = enc_emit(x, lim, b);
            &&& xr < lim
            &&& (em.len() == 0 ==> xr == x)
            &&& (em.len() > 0 ==> xr >= lim / pow2(b))
            &&& forall|i: int| 0 <= i < em.len() ==> em[i] < pow2(b)
        }),
    decreases x,
{
    lemma_pow2_pos(b);
    lemma_pow2_strictly_increases(0, b);
    lemma2_to64();
    let (em, xr) = enc_emit(x, lim, b);
    if x >= lim {
        lemma_div_decreases(x as int, pow2(b) as int);
        lemma_enc_emit_props(x / pow2(b), lim, b);
        let (rest, _) = enc_emit(x / pow2(b), lim, b);
        lemma_mod_bound(x as int, pow2(b) as int);
        assert(em == seq![x % pow2(b)] + rest);
        if rest.len() == 0 {
            lemma_div_is_ordered(lim as int, x as int, pow2(b) as int);
            assert(xr == x / pow2(b));
            assert(xr >= lim / pow2(b));
        }
        assert(forall|i: int| 0 <= i < em.len() ==> em[i] < pow2(b));
    }
}

/// Emitted units, read back in reverse, renormalize the decoder to
/// exactly the state the encoder renormalized away from: prepending the
/// reversed emissions to any stream and renormalizing from the final
/// encoder state is the same as renormalizing from the original state.
pub proof fn lemma_emit_renorm(x: nat, lim: nat, b: nat, l: nat, rest: Seq<nat>)
    requires
        b >= 1,
        1 <= lim,
        1 <= l,
        x < l * pow2(b),
    ensures
        ({
            let (em, xr) = enc_emit(x, lim, b);
            dec_renorm(xr, em.reverse() + rest, l, b) == dec_renorm(x, rest, l, b)
        }),
    decreases x,
{
    lemma_pow2_pos(b);
    lemma_pow2_strictly_increases(0, b);
    lemma2_to64();
    let (em, xr) = enc_emit(x, lim, b);
    if x >= lim {
        let w = pow2(b);
        let u = x % w;
        let xd = x / w;
        lemma_div_decreases(x as int, w as int);
        lemma_fundamental_div_mod(x as int, w as int);
        lemma_mod_bound(x as int, w as int);
        // x / w < l since x < l * w.
        assert(xd < l) by (nonlinear_arith)
            requires
                x == w * xd + u,
                0 <= u < w,
                x < l * w,
                1 <= w,
                0 <= xd,
        ;
        assert(xd < l * w) by (nonlinear_arith)
            requires
                xd < l,
                1 <= l,
                2 <= w,
        ;
        let (em2, _) = enc_emit(xd, lim, b);
        assert(em == seq![u] + em2);
        lemma_emit_renorm(xd, lim, b, l, seq![u] + rest);
        assert(dec_renorm(xr, em2.reverse() + (seq![u] + rest), l, b) == dec_renorm(
            xd,
            seq![u] + rest,
            l,
            b,
        ));
        assert(em.reverse() + rest =~= em2.reverse() + (seq![u] + rest)) by {
            assert(em.reverse() =~= em2.reverse() + seq![u]);
        }
        // One decoder refill from u restores x.
        assert(dec_renorm(xd, seq![u] + rest, l, b) == dec_renorm(xd * w + u, rest, l, b)) by {
            assert((seq![u] + rest)[0] == u);
            assert((seq![u] + rest).drop_first() =~= rest);
        }
        assert(xd * w + u == x) by (nonlinear_arith)
            requires
                x == w * xd + u,
        ;
    } else {
        assert(em.reverse() + rest =~= rest);
    }
}

/// `le_units` and `le_value` are mutually inverse on values that fit in
/// `k` units of `b` bits.
pub proof fn lemma_le_units_value(x: nat, b: nat, k: nat)
    requires
        x < pow2(b * k),
    ensures
        le_units(x, b, k).len() == k,
        le_value(le_units(x, b, k), b) == x,
        forall|i: int| 0 <= i < k ==> le_units(x, b, k)[i] < pow2(b),
    decreases k,
{
    let w = pow2(b);
    lemma_pow2_pos(b);
    if k == 0 {
        assert(b * k == 0) by (nonlinear_arith)
            requires
                k == 0,
        ;
        assert(pow2(0) == 1) by {
            lemma2_to64();
        }
    } else {
        let u = x % w;
        let xd = x / w;
        lemma_fundamental_div_mod(x as int, w as int);
        lemma_mod_bound(x as int, w as int);
        assert(pow2(b * k) == w * pow2(b * (k - 1) as nat)) by {
            lemma_pow2_adds(b, b * (k - 1) as nat);
            assert(b * k == b + b * (k - 1) as nat) by (nonlinear_arith)
                requires
                    k >= 1,
            ;
        }
        assert(xd < pow2(b * (k - 1) as nat)) by (nonlinear_arith)
            requires
                x == w * xd + u,
                0 <= u < w,
                x < w * pow2(b * (k - 1) as nat),
                1 <= w,
                0 <= xd,
        ;
        lemma_le_units_value(xd, b, (k - 1) as nat);
        let units = le_units(x, b, k);
        assert(units == seq![u] + le_units(xd, b, (k - 1) as nat));
        assert(units.drop_first() =~= le_units(xd, b, (k - 1) as nat));
        assert(le_value(units, b) == u + w * xd);
    }
}

/// Correctness of the fixed-point reciprocal: for a frequency `f` with
/// `pow2(sh - 1) < f <= pow2(sh)` and the reciprocal
/// `m == ceil(pow2(p + sh) / f)`, multiplying any `x < pow2(p)` by `m`
/// and dropping `p + sh` low bits is exact division by `f`.
pub proof fn lemma_reciprocal_div(x: nat, f: nat, sh: nat, p: nat, m: nat)
    requires
        2 <= f,
        1 <= sh <= p,
        f <= pow2(sh),
        pow2((sh - 1) as nat) < f,
        x < pow2(p),
        m == (pow2(p + sh) + f - 1) as nat / f,
    ensures
        (x * m) / pow2(p + sh) == x / f,
        m < 2 * pow2(p),
{
    let pp = pow2(p + sh);
    lemma_pow2_pos(p + sh);
    lemma_pow2_pos(p);
    lemma_pow2_pos(sh);
    lemma_pow2_adds(p, sh);
    // Pin down m * f.
    lemma_fundamental_div_mod((pp + f - 1) as int, f as int);
    lemma_mod_bound((pp + f - 1) as int, f as int);
    let r2 = (pp + f - 1) as nat % f;
    assert(m * f == pp + f - 1 - r2) by (nonlinear_arith)
        requires
            pp + f - 1 == f * m + r2,
    ;
    assert(pp <= m * f <= pp + f - 1);
    let q = x / f;
    let r = x % f;
    lemma_fundamental_div_mod(x as int, f as int);
    lemma_mod_bound(x as int, f as int);
    // Lower bound: q * pp <= x * m.
    assert(q * pp <= x * m) by (nonlinear_arith)
        requires
            x == f * q + r,
            0 <= r,
            0 <= q,
            pp <= m * f,
            0 <= m,
            0 <= pp,
            1 <= f,
    ;
    // Upper bound: x * m < (q + 1) * pp.
    assert(x * (f - 1) < pp) by (nonlinear_arith)
        requires
            x < pow2(p),
            f - 1 < pow2(sh),
            pp == pow2(p) * pow2(sh),
            0 <= x,
            0 <= f - 1,
    ;
    assert(x * m * f < (q + 1) * pp * f) by (nonlinear_arith)
        requires
            m * f <= pp + f - 1,
            x == f * q + r,
            0 <= r < f,
            x * (f - 1) < pp,
            0 <= x,
            0 <= q,
            1 <= f,
            0 < pp,
    ;
    assert(x * m < (q + 1) * pp) by (nonlinear_arith)
        requires
            x * m * f < (q + 1) * pp * f,
            1 <= f,
    ;
    assert((q + 1) * pp == q * pp + pp) by (nonlinear_arith);
    lemma_fundamental_div_mod_converse((x * m) as int, pp as int, q as int, (x * m - q * pp) as int);
    // m fits below 2 * pow2(p).
    lemma_pow2_unfold(sh);
    lemma_pow2_pos((sh - 1) as nat);
    if sh - 1 < p {
        lemma_pow2_strictly_increases((sh - 1) as nat, p);
    }
    assert(m < 2 * pow2(p)) by (nonlinear_arith)
        requires
            m * f <= pp + f - 1,
            2 <= f,
            0 <= m,
            f <= pow2(sh),
            pow2((sh - 1) as nat) < f,
            pow2(sh) == 2 * pow2((sh - 1) as nat),
            pow2((sh - 1) as nat) <= pow2(p),
            pp == pow2(p) * pow2(sh),
            1 <= pow2(p),
            1 <= pow2(sh),
    ;
}

/// The joint state of a coder: one rANS state per channel, and the
/// shared stream of units. For an encoder the stream is what has been
/// emitted so far (it grows at the front); for a decoder it is what
/// remains to be consumed (it shrinks at the front).
pub ghost struct CoderModel {
    /// The per-channel states.
    pub states: Seq<nat>,
    /// The shared unit stream, front first.
    pub stream: Seq<nat>,
}

/// A freshly constructed or reset encoder: every state at the floor `l`,
/// nothing emitted.
pub open spec fn fresh_coder(n: nat, l: nat) -> CoderModel {
    CoderModel { states: Seq::new(n, |c: int| l), stream: Seq::empty() }
}

/// One `put_at` call: renormalize and ingest on channel `c`, prepending
/// the emitted units (most recent first) to the stream.
pub open spec fn coder_put_at(m: CoderModel, c: int, s: SymModel, l: nat, b: nat) -> CoderModel {
    let (em, x1) = enc_put(m.states[c], s, l, b);
    CoderModel { states: m.states.update(c, x1), stream: em.reverse() + m.stream }
}

/// One `flush_at` call: prepend the `k` units of channel `c`'s state,
/// least significant first.
pub open spec fn coder_flush_at(m: CoderModel, c: int, b: nat, k: nat) -> CoderModel {
    CoderModel { states: m.states, stream: le_units(m.states[c], b, k) + m.stream }
}

/// `flush_all`: flush channels `0 .. c` in ascending order.
pub open spec fn coder_flush_upto(m: CoderModel, c: int, b: nat, k: nat) -> CoderModel
    decreases c,
{
    if c <= 0 {
        m
    } else {
        coder_flush_at(coder_flush_upto(m, c - 1, b, k), c - 1, b, k)
    }
}

/// Decoder construction: read `k` units per channel from the front of
/// the stream, channels in ascending order, each state least-significant
/// unit first.
pub open spec fn dec_init(stream: Seq<nat>, n: nat, b: nat, k: nat) -> CoderModel {
    CoderModel {
        states: Seq::new(
            n,
            |c: int| le_value(stream.subrange(c * k as int, (c + 1) * k as int), b),
        ),
        stream: stream.skip(n as int * k as int),
    }
}

/// One `advance_step_at` call: the extraction step on channel `c`.
pub open spec fn coder_dec_step_at(m: CoderModel, c: int, s: SymModel) -> CoderModel {
    CoderModel { states: m.states.update(c, dec_step(m.states[c], s) as nat), stream: m.stream }
}

/// One `renorm_at` call: refill channel `c` from the front of the stream.
pub open spec fn coder_renorm_at(m: CoderModel, c: int, l: nat, b: nat) -> CoderModel {
    let (x, rest) = dec_renorm(m.states[c], m.stream, l, b);
    CoderModel { states: m.states.update(c, x), stream: rest }
}

/// One `advance_at` call: extraction step, then renormalization.
pub open spec fn coder_advance_at(m: CoderModel, c: int, s: SymModel, l: nat, b: nat) -> CoderModel {
    coder_renorm_at(coder_dec_step_at(m, c, s), c, l, b)
}

/// `renorm_all`: renormalize channels `0 .. c` in ascending order.
pub open spec fn coder_renorm_upto(m: CoderModel, c: int, l: nat, b: nat) -> CoderModel
    decreases c,
{
    if c <= 0 {
        m
    } else {
        coder_renorm_at(coder_renorm_upto(m, c - 1, l, b), c - 1, l, b)
    }
}

/// The all-ones reciprocal used for `f == 1`: multiplying by
/// `pow2(p) - 1` and dropping `p` bits maps `x` to `x - 1`.
pub proof fn lemma_reciprocal_one(x: nat, p: nat)
    requires
        1 <= x <= pow2(p),
    ensures
        (x * (pow2(p) - 1) as nat) / pow2(p) == x - 1,
{
    let pp = pow2(p);
    lemma_pow2_pos(p);
    assert(x * (pp - 1) as nat == (x - 1) * pp + (pp - x)) by (nonlinear_arith)
        requires
            1 <= x <= pp,
    ;
    lemma_fundamental_div_mod_converse(
        (x * (pp - 1) as nat) as int,
        pp as int,
        x as int - 1,
        (pp - x) as int,
    );
}

/// The `k` bytes of a unit value, least significant first.
pub open spec fn unit_le_bytes(u: nat, k: nat) -> Seq<u8>
    decreases k,
{
    if k == 0 {
        Seq::empty()
    } else {
        seq![(u % 256) as u8] + unit_le_bytes(u / 256, (k - 1) as nat)
    }
}

/// A unit stream as bytes: each unit as `k` bytes, least significant
/// first.
pub open spec fn units_le_bytes(units: Seq<nat>, k: nat) -> Seq<u8>
    decreases units.len(),
{
    if units.len() == 0 {
        Seq::empty()
    } else {
        unit_le_bytes(units[0], k) + units_le_bytes(units.drop_first(), k)
    }
}

/// The value of a little-endian byte sequence.
pub open spec fn byte_seq_value(s: Seq<u8>) -> nat
    decreases s.len(),
{
    if s.len() == 0 {
        0
    } else {
        s[0] as nat + 256 * byte_seq_value(s.drop_first())
    }
}

/// A byte sequence as a unit stream: consecutive groups of `k` bytes,
/// least significant byte first. A trailing group shorter than `k` is
/// not a unit.
pub open spec fn bytes_le_units(s: Seq<u8>, k: nat) -> Seq<nat>
    decreases s.len(),
{
    if 1 <= k <= s.len() {
        seq![byte_seq_value(s.take(k as int))] + bytes_le_units(s.skip(k as int), k)
    } else {
        Seq::empty()
    }
}

/// A unit's bytes have length `k`, and reading them back yields the unit
/// when it fits in `k` bytes.
pub proof fn lemma_unit_le_bytes_value(u: nat, k: nat)
    requires
        u < pow2(8 * k),
    ensures
        unit_le_bytes(u, k).len() == k,
        byte_seq_value(unit_le_bytes(u, k)) == u,
    decreases k,
{
    if k == 0 {
        assert(8 * k == 0) by (nonlinear_arith)
            requires
                k == 0,
        ;
        assert(pow2(0) == 1) by {
            lemma2_to64();
        }
    } else {
        let ud = u / 256;
        let um = u % 256;
        lemma_fundamental_div_mod(u as int, 256);
        lemma_mod_bound(u as int, 256);
        assert(pow2(8 * k) == 256 * pow2(8 * (k - 1) as nat)) by {
            lemma_pow2_adds(8, 8 * (k - 1) as nat);
            lemma2_to64();
            assert(8 * k == 8 + 8 * (k - 1) as nat) by (nonlinear_arith)
                requires
                    k >= 1,
            ;
        }
        assert(ud < pow2(8 * (k - 1) as nat)) by (nonlinear_arith)
            requires
                u == 256 * ud + um,
                0 <= um < 256,
                u < 256 * pow2(8 * (k - 1) as nat),
                0 <= ud,
        ;
        lemma_unit_le_bytes_value(ud, (k - 1) as nat);
        let bs = unit_le_bytes(u, k);
        assert(bs.drop_first() =~= unit_le_bytes(ud, (k - 1) as nat));
        assert(bs[0] == um as u8);
        assert(byte_seq_value(bs) == um + 256 * ud);
    }
}

/// Prepending one unit's bytes to a byte stream prepends the unit to the
/// unit stream.
pub proof fn lemma_bytes_le_units_prepend(u: nat, s: Seq<u8>, k: nat)
    requires
        1 <= k,
        u < pow2(8 * k),
    ensures
        bytes_le_units(unit_le_bytes(u, k) + s, k) == seq![u] + bytes_le_units(s, k),
{
    lemma_unit_le_bytes_value(u, k);
    let bs = unit_le_bytes(u, k);
    let whole = bs + s;
    assert(whole.take(k as int) =~= bs);
    assert(whole.skip(k as int) =~= s);
    assert(bytes_le_units(whole, k) =~= seq![u] + bytes_le_units(s, k));
}

/// The bytes of a unit stream, regrouped, give back the unit stream; and
/// a byte stream of whole groups survives the round trip to units and
/// back.
pub proof fn lemma_units_bytes_roundtrip(s: Seq<u8>, k: nat)
    requires
        1 <= k,
        s.len() % k == 0,
    ensures
        units_le_bytes(bytes_le_units(s, k), k) == s,
        bytes_le_units(s, k).len() * k == s.len(),
        forall|i: int|
            0 <= i < bytes_le_units(s, k).len() ==> #[trigger] bytes_le_units(s, k)[i] < pow2(
                8 * k,
            ),
    decreases s.len(),
{
    let units = bytes_le_units(s, k);
    if s.len() == 0 {
        assert(units_le_bytes(units, k) =~= s);
        assert(units.len() * k == 0) by (nonlinear_arith)
            requires
                units.len() == 0,
        ;
    } else {
        assert(s.len() >= k) by {
            lemma_mod_is_zero(s.len(), k);
        }
        let head = s.take(k as int);
        let tail = s.skip(k as int);
        assert(tail.len() % k == 0) by {
            lemma_mod_sub_multiples_vanish(s.len() as int, k as int);
        }
        lemma_units_bytes_roundtrip(tail, k);
        let u = byte_seq_value(head);
        lemma_byte_seq_value_bound(head);
        assert(8 * head.len() == 8 * k);
        lemma_unit_le_bytes_round(head);
        assert(units == seq![u] + bytes_le_units(tail, k));
        assert(units.drop_first() =~= bytes_le_units(tail, k));
        assert(units[0] == u);
        assert(units_le_bytes(units, k) == unit_le_bytes(u, k) + units_le_bytes(
            bytes_le_units(tail, k),
            k,
        ));
        assert(unit_le_bytes(u, k) == head);
        assert(units_le_bytes(units, k) =~= s) by {
            assert(head + tail =~= s);
        }
        assert(units.len() * k == s.len()) by (nonlinear_arith)
            requires
                units.len() == 1 + bytes_le_units(tail, k).len(),
                bytes_le_units(tail, k).len() * k == tail.len(),
                s.len() == k + tail.len(),
        ;
        assert forall|i: int| 0 <= i < units.len() implies #[trigger] units[i] < pow2(8 * k) by {
            if i == 0 {
                assert(units[0] == u);
            } else {
                assert(units[i] == bytes_le_units(tail, k)[i - 1]);
            }
        }
    }
}

/// The value of a byte sequence fits in its width.
pub proof fn lemma_byte_seq_value_bound(s: Seq<u8>)
    ensures
        byte_seq_value(s) < pow2(8 * s.len()),
    decreases s.len(),
{
    if s.len() == 0 {
        assert(8 * s.len() == 0) by (nonlinear_arith)
            requires
                s.len() == 0,
        ;
        assert(pow2(0) == 1) by {
            lemma2_to64();
        }
    } else {
        lemma_byte_seq_value_bound(s.drop_first());
        let rest = byte_seq_value(s.drop_first());
        assert(pow2(8 * s.len()) == 256 * pow2(8 * (s.len() - 1) as nat)) by {
            lemma_pow2_adds(8, 8 * (s.len() - 1) as nat);
            lemma2_to64();
            assert(8 * s.len() == 8 + 8 * (s.len() - 1) as nat) by (nonlinear_arith)
                requires
                    s.len() >= 1,
            ;
        }
        assert(s[0] + 256 * rest < 256 * pow2(8 * (s.len() - 1) as nat)) by (nonlinear_arith)
            requires
                s[0] < 256,
                rest < pow2(8 * (s.len() - 1) as nat),
                0 <= rest,
        ;
    }
}

/// Writing a byte sequence's value back as bytes reproduces the bytes.
pub proof fn lemma_unit_le_bytes_round(s: Seq<u8>)
    ensures
        unit_le_bytes(byte_seq_value(s), s.len()) == s,
    decreases s.len(),
{
    if s.len() == 0 {
        assert(unit_le_bytes(byte_seq_value(s), s.len()) =~= s);
    } else {
        let u = byte_seq_value(s);
        let rest = byte_seq_value(s.drop_first());
        lemma_unit_le_bytes_round(s.drop_first());
        lemma_fundamental_div_mod_converse(u as int, 256, rest as int, s[0] as int);
        assert(u % 256 == s[0] && u / 256 == rest);
        assert(unit_le_bytes(u, s.len()) == seq![(u % 256) as u8] + unit_le_bytes(
            rest,
            (s.len() - 1) as nat,
        ));
        assert(unit_le_bytes(u, s.len()) =~= s);
    }
}

/// The byte form of a unit stream has `k` bytes per unit.
pub proof fn lemma_units_le_bytes_len(units: Seq<nat>, k: nat)
    requires
        forall|i: int| 0 <= i < units.len() ==> #[trigger] units[i] < pow2(8 * k),
    ensures
        units_le_bytes(units, k).len() == units.len() * k,
    decreases units.len(),
{
    if units.len() == 0 {
        assert(units.len() * k == 0) by (nonlinear_arith)
            requires
                units.len() == 0,
        ;
    } else {
        lemma_unit_le_bytes_value(units[0], k);
        assert(forall|i: int|
            0 <= i < units.drop_first().len() ==> #[trigger] units.drop_first()[i] < pow2(8 * k));
        lemma_units_le_bytes_len(units.drop_first(), k);
        assert(units.len() * k == k + units.drop_first().len() * k) by (nonlinear_arith)
            requires
                units.len() >= 1,
                units.drop_first().len() == units.len() - 1,
        ;
    }
}

/// `renorm_all` succeeds: renormalizing channels `0 .. c` in ascending
/// order finds enough units at every step.
pub open spec fn renorm_upto_ok(m: CoderModel, c: int, l: nat, b: nat) -> bool
    decreases c,
{
    if c <= 0 {
        true
    } else {
        renorm_upto_ok(m, c - 1, l, b) && dec_renorm_ok(
            coder_renorm_upto(m, c - 1, l, b).states[c - 1],
            coder_renorm_upto(m, c - 1, l, b).stream,
            l,
            b,
        )
    }
}

/// The unit at index `j` of a grouped byte stream is the value of its
/// `k` bytes.
pub proof fn lemma_bytes_le_units_index(s: Seq<u8>, k: nat, j: int)
    requires
        1 <= k,
        0 <= j,
        (j + 1) * k <= s.len(),
    ensures
        bytes_le_units(s, k).len() > j,
        bytes_le_units(s, k)[j] == byte_seq_value(s.subrange(j * k as int, (j + 1) * k as int)),
    decreases j,
{
    assert(s.len() >= k) by (nonlinear_arith)
        requires
            (j + 1) * k <= s.len(),
            0 <= j,
            1 <= k,
    ;
    if j == 0 {
        assert(j * k as int == 0 && (j + 1) * k as int == k as int) by (nonlinear_arith)
            requires
                j == 0,
        ;
        assert(s.take(k as int) =~= s.subrange(0, k as int));
    } else {
        assert((j - 1 + 1) * k as int == (j + 1) * k - k && (j + 1) * k as int - k >= 0)
            by (nonlinear_arith)
            requires
                j >= 1,
                k >= 1,
        ;
        lemma_bytes_le_units_index(s.skip(k as int), k, j - 1);
        assert(s.skip(k as int).subrange((j - 1) * k as int, j * k as int) =~= s.subrange(
            j * k as int,
            (j + 1) * k as int,
        )) by {
            assert((j - 1) * k as int == j * k - k && j * k as int >= k) by (nonlinear_arith)
                requires
                    j >= 1,
                    k >= 1,
            ;
        }
    }
}

/// The four bytes of a 32-bit unit, spelled out.
pub proof fn lemma_unit_le_bytes4(u: nat)
    requires
        u < pow2(32),
    ensures
        unit_le_bytes(u, 4) == seq![
            (u % 256) as u8,
            ((u / 256) % 256) as u8,
            ((u / 65536) % 256) as u8,
            ((u / 16777216) % 256) as u8,
        ],
{
    reveal_with_fuel(unit_le_bytes, 5);
    lemma_div_denominator(u as int, 256, 256);
    lemma_div_denominator(u as int, 65536, 256);
    assert(unit_le_bytes(u, 4) =~= seq![
        (u % 256) as u8,
        ((u / 256) % 256) as u8,
        ((u / 65536) % 256) as u8,
        ((u / 16777216) % 256) as u8,
    ]);
}

/// The value of four bytes, spelled out.
pub proof fn lemma_byte_seq_value4(s: Seq<u8>)
    requires
        s.len() == 4,
    ensures
        byte_seq_value(s) == s[0] as nat + 256 * (s[1] as nat) + 65536 * (s[2] as nat) + 16777216
            * (s[3] as nat),
        byte_seq_value(s) < pow2(32),
{
    lemma_byte_seq_value_bound(s);
    assert(8 * s.len() == 32) by (nonlinear_arith)
        requires
            s.len() == 4,
    ;
    let s1 = s.drop_first();
    let s2 = s1.drop_first();
    let s3 = s2.drop_first();
    let s4 = s3.drop_first();
    assert(s4 =~= Seq::<u8>::empty());
    assert(byte_seq_value(s4) == 0);
    assert(byte_seq_value(s3) == s[3] as nat);
    assert(byte_seq_value(s2) == s[2] as nat + 256 * (s[3] as nat));
    assert(byte_seq_value(s1) == s[1] as nat + 256 * (s[2] as nat + 256 * (s[3] as nat)));
}

/// `renorm_all` succeeding up to `c` means it succeeds up to every
/// earlier channel as well.
pub proof fn lemma_renorm_upto_ok_prefix(m: CoderModel, c: int, l: nat, b: nat)
    requires
        renorm_upto_ok(m, c, l, b),
    ensures
        forall|j: int| 0 <= j <= c ==> #[trigger] renorm_upto_ok(m, j, l, b),
    decreases c,
{
    if c > 0 {
        lemma_renorm_upto_ok_prefix(m, c - 1, l, b);
    }
}

/// With one byte per unit, the unit stream is the byte stream.
pub proof fn lemma_bytes_units_bytewise(s: Seq<u8>)
    ensures
        bytes_le_units(s, 1) == s.map_values(|x: u8| x as nat),
    decreases s.len(),
{
    if s.len() == 0 {
        assert(bytes_le_units(s, 1) =~= s.map_values(|x: u8| x as nat));
    } else {
        lemma_bytes_units_bytewise(s.skip(1));
        assert(byte_seq_value(s.take(1)) == s[0] as nat) by {
            assert(s.take(1).drop_first() =~= Seq::<u8>::empty());
            assert(byte_seq_value(Seq::<u8>::empty()) == 0);
            assert(s.take(1)[0] == s[0]);
        }
        assert(bytes_le_units(s, 1) =~= s.map_values(|x: u8| x as nat)) by {
            assert(s.skip(1).map_values(|x: u8| x as nat) =~= s.map_values(
                |x: u8| x as nat,
            ).skip(1));
        }
    }
}

/// The pieces of one `enc_put` step that an implementation needs: the
/// threshold is positive and fits under the interval top, renormalization
/// lands strictly below the threshold on a positive state, and the
/// ingested state lands back inside the working interval.
pub proof fn lemma_enc_put_parts(x: nat, s: SymModel, lb: nat, b: nat)
    requires
        valid_sym(s),
        s.scale <= lb,
        b >= 1,
        pow2(lb) <= x < pow2(lb) * pow2(b),
    ensures
        ({
            let l = pow2(lb);
            let lim = x_threshold(l, b, s);
            let (em, xr) = enc_emit(x, lim, b);
            &&& 1 <= lim <= l * pow2(b)
            &&& xr < lim
            &&& 1 <= xr
            &&& l <= enc_step(xr, s) < l * pow2(b)
            &&& (em.len() == 0 ==> xr == x)
            &&& forall|i: int| 0 <= i < em.len() ==> em[i] < pow2(b)
        }),
{
    let l = pow2(lb);
    let m = pow2(s.scale);
    lemma_pow2_pos(lb);
    lemma_pow2_pos(b);
    lemma_pow2_pos(s.scale);
    lemma_pow2_subtracts(s.scale, lb);
    lemma_pow2_adds((lb - s.scale) as nat, s.scale);
    lemma_mod_multiples_basic(pow2((lb - s.scale) as nat) as int, m as int);
    assert(l % m == 0);
    assert(m <= l) by (nonlinear_arith)
        requires
            l == pow2((lb - s.scale) as nat) * m,
            1 <= pow2((lb - s.scale) as nat),
            0 <= m,
    ;
    let k0 = l / m;
    let lim = x_threshold(l, b, s);
    lemma_fundamental_div_mod(l as int, m as int);
    assert(k0 >= 1) by (nonlinear_arith)
        requires
            l == m * k0 + l % m,
            l % m == 0,
            m <= l,
            0 <= k0,
            1 <= m,
    ;
    assert(lim >= 1) by (nonlinear_arith)
        requires
            lim == k0 * pow2(b) * s.freq,
            1 <= k0,
            1 <= pow2(b),
            1 <= s.freq,
    ;
    assert(lim <= l * pow2(b)) by (nonlinear_arith)
        requires
            lim == k0 * pow2(b) * s.freq,
            l == m * k0 + l % m,
            l % m == 0,
            s.freq <= m,
            1 <= k0,
            1 <= pow2(b),
            1 <= s.freq,
            1 <= m,
    ;
    let (em, xr) = enc_emit(x, lim, b);
    lemma_enc_emit_props(x, lim, b);
    assert(lim == (k0 * s.freq) * pow2(b) + 0) by (nonlinear_arith)
        requires
            lim == k0 * pow2(b) * s.freq,
    ;
    lemma_fundamental_div_mod_converse(lim as int, pow2(b) as int, (k0 * s.freq) as int, 0);
    assert(lim / pow2(b) == k0 * s.freq);
    assert(xr >= l || xr >= k0 * s.freq);
    assert(1 <= xr) by (nonlinear_arith)
        requires
            xr >= l || xr >= k0 * s.freq,
            1 <= l,
            1 <= k0,
            1 <= s.freq,
    ;
    lemma_enc_step_bounds(xr, s, l, b);
}

/// One recorded `put_at` call.
pub ghost struct PutCall {
    /// The channel the symbol went to.
    pub channel: int,
    /// The symbol.
    pub sym: SymModel,
}

/// A call is valid for an `n`-channel coder with floor `pow2(lb)` when
/// the channel exists, the symbol is valid, and its scale is at most `lb`.
pub open spec fn valid_call(call: PutCall, n: nat, lb: nat) -> bool {
    &&& 0 <= call.channel < n
    &&& valid_sym(call.sym)
    &&& call.sym.scale <= lb
}

/// Run a sequence of `put_at` calls, first call first.
pub open spec fn coder_put_seq(m: CoderModel, calls: Seq<PutCall>, l: nat, b: nat) -> CoderModel
    decreases calls.len(),
{
    if calls.len() == 0 {
        m
    } else {
        coder_put_at(
            coder_put_seq(m, calls.drop_last(), l, b),
            calls.last().channel,
            calls.last().sym,
            l,
            b,
        )
    }
}

/// Run the decode schedule matching a sequence of `put_at` calls: the
/// calls are decoded last first, and a call on encoder channel `c` is
/// decoded on channel `n - 1 - c` (the flush and initialization orders
/// reverse the channel numbering).
pub open spec fn coder_decode_back(
    m: CoderModel,
    calls: Seq<PutCall>,
    n: nat,
    l: nat,
    b: nat,
) -> CoderModel
    decreases calls.len(),
{
    if calls.len() == 0 {
        m
    } else {
        coder_decode_back(
            coder_advance_at(m, n - 1 - calls.last().channel, calls.last().sym, l, b),
            calls.drop_last(),
            n,
            l,
            b,
        )
    }
}

/// The slots `get_at` reports along the decode schedule, in decode order
/// (so entry `i` belongs to put call `calls.len() - 1 - i`).
pub open spec fn decode_slots(m: CoderModel, calls: Seq<PutCall>, n: nat, l: nat, b: nat) -> Seq<
    nat,
>
    decreases calls.len(),
{
    if calls.len() == 0 {
        Seq::empty()
    } else {
        let c = n - 1 - calls.last().channel;
        seq![dec_slot(m.states[c], calls.last().sym.scale)] + decode_slots(
            coder_advance_at(m, c, calls.last().sym, l, b),
            calls.drop_last(),
            n,
            l,
            b,
        )
    }
}

/// The decoder's picture of an encoder state: the same stream, and the
/// channel states in reverse order.
pub open spec fn flip_view(m: CoderModel, n: nat) -> CoderModel {
    CoderModel { states: Seq::new(n, |c: int| m.states[n - 1 - c]), stream: m.stream }
}

/// All channel states lie in the working interval `[l, l * pow2(b))`.
pub open spec fn states_in_range(m: CoderModel, n: nat, l: nat, b: nat) -> bool {
    m.states.len() == n && forall|c: int| 0 <= c < n ==> l <= #[trigger] m.states[c] < l * pow2(b)
}

/// One `advance_at` on the flipped view undoes one `put_at`: the state
/// returns to its previous value, the emitted units are consumed, and the
/// slot seen before advancing lies in the symbol's interval.
pub proof fn lemma_advance_undoes_put(m: CoderModel, call: PutCall, n: nat, lb: nat, b: nat)
    requires
        n >= 1,
        b >= 1,
        valid_call(call, n, lb),
        states_in_range(m, n, pow2(lb), b),
    ensures
        ({
            let l = pow2(lb);
            let e = coder_put_at(m, call.channel, call.sym, l, b);
            let c = n - 1 - call.channel;
            &&& states_in_range(e, n, l, b)
            &&& call.sym.cum <= dec_slot(flip_view(e, n).states[c], call.sym.scale) < call.sym.cum
                + call.sym.freq
            &&& coder_advance_at(flip_view(e, n), c, call.sym, l, b) == flip_view(m, n)
        }),
{
    let l = pow2(lb);
    let s = call.sym;
    let ch = call.channel;
    let x = m.states[ch];
    let c = n - 1 - ch;
    lemma_pow2_pos(lb);
    lemma_pow2_pos(b);
    lemma_pow2_pos(s.scale);
    // pow2(scale) divides l and is at most l.
    lemma_pow2_subtracts(s.scale, lb);
    lemma_pow2_adds((lb - s.scale) as nat, s.scale);
    lemma_mod_multiples_basic(pow2((lb - s.scale) as nat) as int, pow2(s.scale) as int);
    assert(l % pow2(s.scale) == 0);
    assert(pow2(s.scale) <= l) by (nonlinear_arith)
        requires
            l == pow2((lb - s.scale) as nat) * pow2(s.scale),
            1 <= pow2((lb - s.scale) as nat),
            0 <= pow2(s.scale),
    ;
    // The threshold is positive and divisible by pow2(b).
    let k0 = l / pow2(s.scale);
    let lim = x_threshold(l, b, s);
    lemma_fundamental_div_mod(l as int, pow2(s.scale) as int);
    assert(k0 >= 1) by (nonlinear_arith)
        requires
            l == pow2(s.scale) * k0 + l % pow2(s.scale),
            l % pow2(s.scale) == 0,
            pow2(s.scale) <= l,
            0 <= k0,
            1 <= pow2(s.scale),
    ;
    assert(lim >= 1) by (nonlinear_arith)
        requires
            lim == k0 * pow2(b) * s.freq,
            1 <= k0,
            1 <= pow2(b),
            1 <= s.freq,
    ;
    let (em, xr) = enc_emit(x, lim, b);
    lemma_enc_emit_props(x, lim, b);
    // lim / pow2(b) == k0 * freq.
    assert(lim == (k0 * s.freq) * pow2(b) + 0) by (nonlinear_arith)
        requires
            lim == k0 * pow2(b) * s.freq,
    ;
    lemma_fundamental_div_mod_converse(lim as int, pow2(b) as int, (k0 * s.freq) as int, 0);
    assert(lim / pow2(b) == k0 * s.freq);
    assert(xr >= l || xr >= k0 * s.freq);
    lemma_enc_step_bounds(xr, s, l, b);
    let x1 = enc_step(xr, s);
    let e = coder_put_at(m, ch, s, l, b);
    assert(e.states[ch] == x1);
    assert(states_in_range(e, n, l, b));
    // Slot and extraction step.
    lemma_step_inverse(xr, s);
    assert(flip_view(e, n).states[c] == x1);
    // Advance on the flipped view.
    let d = flip_view(e, n);
    let d1 = coder_dec_step_at(d, c, s);
    assert(d1.states[c] == xr);
    lemma_emit_renorm(x, lim, b, l, m.stream);
    assert(dec_renorm(x, m.stream, l, b) == (x, m.stream));
    assert(dec_renorm(xr, em.reverse() + m.stream, l, b) == (x, m.stream));
    assert(d1.stream == em.reverse() + m.stream);
    let d2 = coder_renorm_at(d1, c, l, b);
    assert(d2.stream == m.stream);
    assert(d2.states =~= flip_view(m, n).states) by {
        assert(forall|i: int| 0 <= i < n && i != c ==> d2.states[i] == flip_view(m, n).states[i]);
        assert(d2.states[c] == x);
    }
    assert(d2 == flip_view(m, n));
}

/// Flushing all channels in ascending order and then reading them back in
/// ascending order reverses the channel numbering: constructing a decoder
/// over the flushed stream yields the flipped encoder view.
pub proof fn lemma_flush_init(m: CoderModel, n: nat, b: nat, k: nat)
    requires
        b >= 1,
        m.states.len() >= n,
        forall|c: int| 0 <= c < n ==> #[trigger] m.states[c] < pow2(b * k),
    ensures
        ({
            let f = coder_flush_upto(m, n as int, b, k);
            let d = dec_init(f.stream, n, b, k);
            &&& f.states == m.states
            &&& f.stream.len() == m.stream.len() + n * k
            &&& d.states.len() == n
            &&& forall|c: int| 0 <= c < n ==> #[trigger] d.states[c] == m.states[n - 1 - c]
            &&& d.stream == m.stream
        }),
    decreases n,
{
    if n == 0 {
        let f = coder_flush_upto(m, 0, b, k);
        let d = dec_init(f.stream, 0, b, k);
        assert(f == m);
        assert(n * k == 0) by (nonlinear_arith)
            requires
                n == 0,
        ;
        assert(d.stream =~= m.stream);
    } else {
        lemma_flush_init(m, (n - 1) as nat, b, k);
        let fp = coder_flush_upto(m, n as int - 1, b, k);
        let f = coder_flush_upto(m, n as int, b, k);
        let top = m.states[n - 1];
        lemma_le_units_value(top, b, k);
        let units = le_units(top, b, k);
        assert(f.stream == units + fp.stream);
        assert(f.stream.len() == m.stream.len() + n * k) by (nonlinear_arith)
            requires
                f.stream.len() == k + fp.stream.len(),
                fp.stream.len() == m.stream.len() + (n - 1) * k,
        ;
        let d = dec_init(f.stream, n, b, k);
        let dp = dec_init(fp.stream, (n - 1) as nat, b, k);
        assert forall|c: int| 0 <= c < n implies #[trigger] d.states[c] == m.states[n - 1
            - c] by {
            if c == 0 {
                assert(c * k as int == 0 && (c + 1) * k as int == k as int) by (nonlinear_arith)
                    requires
                        c == 0,
                ;
                assert(f.stream.subrange(0, k as int) =~= units);
                assert(d.states[c] == le_value(units, b));
            } else {
                assert(c * k as int >= k as int) by (nonlinear_arith)
                    requires
                        c >= 1,
                        k >= 0,
                ;
                assert((c + 1) * k as int == c * k as int + k as int) by (nonlinear_arith);
                assert(c * k as int - k as int == (c - 1) * k as int) by (nonlinear_arith);
                assert((c + 1) * k as int <= n * k) by (nonlinear_arith)
                    requires
                        c < n,
                        k >= 0,
                ;
                assert(c * k as int <= (n - 1) * k) by (nonlinear_arith)
                    requires
                        c < n,
                        k >= 0,
                ;
                assert(f.stream.subrange(c * k as int, (c + 1) * k as int) =~= fp.stream.subrange(
                    (c - 1) * k as int,
                    c * k as int,
                ));
                assert(dp.states[c - 1] == m.states[n - 1 - c]);
            }
        }
        assert(d.stream =~= dp.stream) by {
            assert(n as int * k as int == (n - 1) * k as int + k as int) by (nonlinear_arith);
        }
    }
}

/// Running valid `put_at` calls keeps every channel state in the working
/// interval `[l, l * pow2(b))`.
pub proof fn lemma_put_seq_in_range(n: nat, calls: Seq<PutCall>, lb: nat, b: nat)
    requires
        n >= 1,
        b >= 1,
        forall|i: int| 0 <= i < calls.len() ==> valid_call(#[trigger] calls[i], n, lb),
    ensures
        states_in_range(coder_put_seq(fresh_coder(n, pow2(lb)), calls, pow2(lb), b), n, pow2(lb), b),
    decreases calls.len(),
{
    let l = pow2(lb);
    lemma_pow2_pos(lb);
    lemma_pow2_strictly_increases(0, b);
    lemma2_to64();
    if calls.len() == 0 {
        assert(l < l * pow2(b)) by (nonlinear_arith)
            requires
                1 <= l,
                2 <= pow2(b),
        ;
    } else {
        lemma_put_seq_in_range(n, calls.drop_last(), lb, b);
        let prev = coder_put_seq(fresh_coder(n, l), calls.drop_last(), l, b);
        lemma_advance_undoes_put(prev, calls.last(), n, lb, b);
    }
}

/// The round-trip law for interleaved multi-channel coding.
///
/// For any sequence of valid `put_at` calls on a fresh `n`-channel
/// encoder with floor `pow2(lb)` and unit width `b`, followed by
/// `flush_all` with `k` units per state: a decoder constructed over the
/// resulting stream starts in the flipped encoder view, and running the
/// matching decode schedule (calls last first, channel `c` decoded on
/// channel `n - 1 - c`) observes, before each advance, a slot inside the
/// corresponding symbol's interval — thereby identifying every encoded
/// symbol in reverse order — and ends with all states back at the floor
/// and the stream fully consumed.
pub proof fn lemma_round_trip_multi(n: nat, calls: Seq<PutCall>, lb: nat, b: nat, k: nat)
    requires
        n >= 1,
        b >= 1,
        lb + b <= b * k,
        forall|i: int| 0 <= i < calls.len() ==> valid_call(#[trigger] calls[i], n, lb),
    ensures
        ({
            let l = pow2(lb);
            let e = coder_put_seq(fresh_coder(n, l), calls, l, b);
            let f = coder_flush_upto(e, n as int, b, k);
            let d0 = dec_init(f.stream, n, b, k);
            let slots = decode_slots(d0, calls, n, l, b);
            &&& d0 == flip_view(e, n)
            &&& coder_decode_back(d0, calls, n, l, b) == flip_view(fresh_coder(n, l), n)
            &&& slots.len() == calls.len()
            &&& forall|i: int|
                0 <= i < calls.len() ==> {
                    let s = calls[calls.len() - 1 - i].sym;
                    s.cum <= #[trigger] slots[i] < s.cum + s.freq
                }
        }),
{
    let l = pow2(lb);
    lemma_put_seq_in_range(n, calls, lb, b);
    let e = coder_put_seq(fresh_coder(n, l), calls, l, b);
    let f = coder_flush_upto(e, n as int, b, k);
    let d0 = dec_init(f.stream, n, b, k);
    assert(forall|c: int| 0 <= c < n ==> #[trigger] e.states[c] < pow2(b * k)) by {
        lemma_pow2_adds(lb, b);
        if lb + b < b * k {
            lemma_pow2_strictly_increases(lb + b, b * k);
        }
        assert(pow2(lb + b) <= pow2(b * k));
        assert(l * pow2(b) == pow2(lb + b));
    }
    lemma_flush_init(e, n, b, k);
    assert(d0.states =~= flip_view(e, n).states);
    assert(d0 == flip_view(e, n));
    lemma_decode_back_inverts(n, calls, lb, b);
}

/// The decode schedule inverts the encode run: starting from the flipped
/// view of the encoder after `calls`, decoding reproduces the flipped
/// fresh view, and every observed slot lies in its symbol's interval.
proof fn lemma_decode_back_inverts(n: nat, calls: Seq<PutCall>, lb: nat, b: nat)
    requires
        n >= 1,
        b >= 1,
        forall|i: int| 0 <= i < calls.len() ==> valid_call(#[trigger] calls[i], n, lb),
    ensures
        ({
            let l = pow2(lb);
            let e = coder_put_seq(fresh_coder(n, l), calls, l, b);
            let d0 = flip_view(e, n);
            let slots = decode_slots(d0, calls, n, l, b);
            &&& coder_decode_back(d0, calls, n, l, b) == flip_view(fresh_coder(n, l), n)
            &&& slots.len() == calls.len()
            &&& forall|i: int|
                0 <= i < calls.len() ==> {
                    let s = calls[calls.len() - 1 - i].sym;
                    s.cum <= #[trigger] slots[i] < s.cum + s.freq
                }
        }),
    decreases calls.len(),
{
    let l = pow2(lb);
    let e = coder_put_seq(fresh_coder(n, l), calls, l, b);
    let d0 = flip_view(e, n);
    if calls.len() == 0 {
    } else {
        let init = calls.drop_last();
        let call = calls.last();
        let prev = coder_put_seq(fresh_coder(n, l), init, l, b);
        lemma_put_seq_in_range(n, init, lb, b);
        lemma_advance_undoes_put(prev, call, n, lb, b);
        assert(e == coder_put_at(prev, call.channel, call.sym, l, b));
        let c = n - 1 - call.channel;
        assert(coder_advance_at(d0, c, call.sym, l, b) == flip_view(prev, n));
        lemma_decode_back_inverts(n, init, lb, b);
        let slots = decode_slots(d0, calls, n, l, b);
        let prev_slots = decode_slots(flip_view(prev, n), init, n, l, b);
        assert(slots == seq![dec_slot(d0.states[c], call.sym.scale)] + prev_slots);
        assert forall|i: int| 0 <= i < calls.len() implies {
            let s = calls[calls.len() - 1 - i].sym;
            s.cum <= #[trigger] slots[i] < s.cum + s.freq
        } by {
            if i == 0 {
                assert(slots[0] == dec_slot(d0.states[c], call.sym.scale));
            } else {
                assert(slots[i] == prev_slots[i - 1]);
                assert(init[init.len() - 1 - (i - 1)] == calls[calls.len() - 1 - i]);
            }
        }
    }
}

/// Flushing a channel of a fresh coder, with nothing put, emits exactly
/// the `k`-unit representation of the floor `l` — the wire form of the
/// initial state.
pub proof fn lemma_flush_fresh(n: nat, c: int, l: nat, b: nat, k: nat)
    requires
        0 <= c < n,
    ensures
        coder_flush_at(fresh_coder(n, l), c, b, k).stream == le_units(l, b, k),
{
    assert(le_units(l, b, k) + Seq::<nat>::empty() =~= le_units(l, b, k));
}

/// The round-trip law for a single stream.
///
/// Encoding any sequence of valid symbols on a fresh single-channel
/// encoder and flushing, then decoding the resulting stream, observes
/// before each advance a slot inside the interval of the corresponding
/// symbol, in reverse encode order, and ends back at the fresh state with
/// the stream fully consumed.
pub proof fn lemma_round_trip_single(syms: Seq<SymModel>, lb: nat, b: nat, k: nat)
    requires
        b >= 1,
        lb + b <= b * k,
        forall|i: int|
            0 <= i < syms.len() ==> valid_sym(#[trigger] syms[i]) && syms[i].scale <= lb,
    ensures
        ({
            let l = pow2(lb);
            let calls = syms.map_values(|s: SymModel| PutCall { channel: 0, sym: s });
            let e = coder_put_seq(fresh_coder(1, l), calls, l, b);
            let f = coder_flush_upto(e, 1, b, k);
            let d0 = dec_init(f.stream, 1, b, k);
            let slots = decode_slots(d0, calls, 1, l, b);
            &&& d0 == CoderModel { states: e.states, stream: e.stream }
            &&& coder_decode_back(d0, calls, 1, l, b) == fresh_coder(1, l)
            &&& slots.len() == syms.len()
            &&& forall|i: int|
                0 <= i < syms.len() ==> {
                    let s = syms[syms.len() - 1 - i];
                    s.cum <= #[trigger] slots[i] < s.cum + s.freq
                }
        }),
{
    let l = pow2(lb);
    let calls = syms.map_values(|s: SymModel| PutCall { channel: 0, sym: s });
    assert(forall|i: int| 0 <= i < calls.len() ==> valid_call(#[trigger] calls[i], 1, lb));
    lemma_round_trip_multi(1, calls, lb, b, k);
    lemma_put_seq_in_range(1, calls, lb, b);
    let e = coder_put_seq(fresh_coder(1, l), calls, l, b);
    assert(flip_view(e, 1).states =~= e.states);
    assert(flip_view(fresh_coder(1, l), 1).states =~= fresh_coder(1, l).states);
    assert(flip_view(e, 1) == CoderModel { states: e.states, stream: e.stream });
    assert(flip_view(fresh_coder(1, l), 1) == fresh_coder(1, l));
    assert(forall|i: int|
        0 <= i < calls.len() ==> #[trigger] calls[calls.len() - 1 - i].sym == syms[syms.len() - 1
            - i]);
}

} // verus!
