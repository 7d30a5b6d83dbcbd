//! Pan and volume of a sound source as one listener hears it, and the pass
//! that works them out for every source at once.
//!
//! The pan is the cosine of the angle between the listener's right axis and
//! the line to the source, moved from the range minus one to one into the
//! range zero to [`UNIT`]. The volume falls with the inverse of the distance,
//! not with its square: a deliberate simplification. It stays at [`UNIT`] up
//! to [`FALLOFF_RANGE`].

use crate::root::{
    floor_sqrt, isqrt, lemma_floor_sqrt_is_root, lemma_floor_sqrt_monotonic,
    lemma_floor_sqrt_of_square,
};
use crate::vector::{
    between, cross, dot, is_zero, lemma_cauchy_schwarz, lemma_norm_sq_sign, norm_sq,
    Direction, Position, Vector,
};
use vstd::prelude::*;

verus! {

/// The value that stands for one: full right as a pan, full level as a volume.
pub const UNIT: u32 = 1_000_000;

/// Half of [`UNIT`]: the pan of a source that is neither left nor right.
pub const CENTER: u32 = 500_000;

/// The distance, in thousandths of a world unit, up to which a source is heard
/// at full volume; beyond it the volume is this distance over the real one.
pub const FALLOFF_RANGE: u32 = 10_000;

/// The reference point that every source is placed against.
#[derive(Clone, Copy, Debug, PartialEq, Eq)]
pub struct Listener {
    /// Where the listener is.
    pub position: Position,
    /// The axis that points to the listener's right.
    pub right: Direction,
}

/// What one source's channel is set to.
#[derive(Clone, Copy, Debug, PartialEq, Eq)]
pub struct Mix {
    /// Zero is full left, [`UNIT`] full right.
    pub pan: u32,
    /// Zero is silence, [`UNIT`] full level.
    pub volume: u32,
}

/// How far the pan lies from [`CENTER`], given the dot product `n` of the two
/// vectors and the product `m` of their squared lengths: [`CENTER`] times the
/// magnitude of `n` over the square root of `m`, rounded down.
pub open spec fn swing(n: int, m: int) -> int {
    floor_sqrt((CENTER * CENTER * (n * n)) / m)
}

/// The pan of a source at `offset` from a listener whose right axis runs along
/// `right`: [`CENTER`] plus or minus the swing, by the side the source is on.
/// With no axis or no offset it is [`CENTER`].
pub open spec fn pan_level(right: Vector, offset: Vector) -> int {
    let n = dot(right, offset);
    let m = norm_sq(right) * norm_sq(offset);
    if m == 0 {
        CENTER as int
    } else if n >= 0 {
        CENTER + swing(n, m)
    } else {
        CENTER - swing(n, m)
    }
}

/// [`FALLOFF_RANGE`] times [`UNIT`] over the square root of `dd`, rounded down.
pub open spec fn falloff(dd: int) -> int {
    floor_sqrt(((FALLOFF_RANGE * UNIT) * (FALLOFF_RANGE * UNIT)) / dd)
}

/// The volume of a source at `offset` from the listener: the smaller of
/// [`UNIT`] and the falloff at that distance; [`UNIT`] at no distance at all.
pub open spec fn volume_level(offset: Vector) -> int {
    let dd = norm_sq(offset);
    if dd == 0 {
        UNIT as int
    } else if falloff(dd) < UNIT {
        falloff(dd)
    } else {
        UNIT as int
    }
}

/// Whether `mix` is what a source at `emitter` is set to for `listener`.
pub open spec fn is_mix_for(mix: Mix, listener: Listener, emitter: Position) -> bool {
    &&& mix.pan == pan_level(listener.right@, between(listener.position@, emitter@))
    &&& mix.volume == volume_level(between(listener.position@, emitter@))
}

/// Whether `mixes` holds, source by source, what each of `emitters` is set to:
/// nothing at all without a listener.
pub open spec fn is_frame_for(
    mixes: Seq<Mix>,
    listener: Option<Listener>,
    emitters: Seq<Position>,
) -> bool {
    match listener {
        None => mixes.len() == 0,
        Some(l) => {
            &&& mixes.len() == emitters.len()
            &&& forall|i: int|
                0 <= i < emitters.len() ==> is_mix_for(#[trigger] mixes[i], l, emitters[i])
        },
    }
}

/// The swing is the one number `s` with
/// `s * s * m <= CENTER * CENTER * n * n < (s + 1) * (s + 1) * m`.
pub proof fn lemma_swing_is_rounded_ratio(n: int, m: int)
    requires
        m > 0,
    ensures
        swing(n, m) >= 0,
        swing(n, m) * swing(n, m) * m <= CENTER * CENTER * (n * n),
        CENTER * CENTER * (n * n) < (swing(n, m) + 1) * (swing(n, m) + 1) * m,
{
    let x = CENTER * CENTER * (n * n);
    assert(x >= 0) by (nonlinear_arith)
        requires
            x == CENTER * CENTER * (n * n),
    ;
    lemma_rounded_ratio(x, m);
}

/// For `x >= 0` and `m > 0`, the root `s` of `x / m` has
/// `s * s * m <= x < (s + 1) * (s + 1) * m`.
proof fn lemma_rounded_ratio(x: int, m: int)
    requires
        x >= 0,
        m > 0,
    ensures
        floor_sqrt(x / m) >= 0,
        floor_sqrt(x / m) * floor_sqrt(x / m) * m <= x,
        x < (floor_sqrt(x / m) + 1) * (floor_sqrt(x / m) + 1) * m,
{
    let q = x / m;
    vstd::arithmetic::div_mod::lemma_fundamental_div_mod(x, m);
    vstd::arithmetic::div_mod::lemma_mod_bound(x, m);
    vstd::arithmetic::div_mod::lemma_div_pos_is_pos(x, m);
    vstd::arithmetic::mul::lemma_mul_is_commutative(m, q);
    assert(q * m <= x < (q + 1) * m) by (nonlinear_arith)
        requires
            x == q * m + x % m,
            0 <= x % m < m,
    ;
    lemma_floor_sqrt_is_root(q);
    let s = floor_sqrt(q);
    assert(s * s * m <= q * m) by (nonlinear_arith)
        requires
            s * s <= q,
            m > 0,
    ;
    assert((q + 1) * m <= (s + 1) * (s + 1) * m) by (nonlinear_arith)
        requires
            q + 1 <= (s + 1) * (s + 1),
            m > 0,
    ;
}

/// The swing never exceeds [`CENTER`] when `n * n <= m`, and reaches it
/// exactly when `n * n == m`.
proof fn lemma_swing_range(n: int, m: int)
    requires
        m > 0,
        n * n <= m,
    ensures
        0 <= swing(n, m) <= CENTER,
        (CENTER * CENTER * (n * n)) / m <= CENTER * CENTER,
        n * n == m ==> swing(n, m) == CENTER,
        n == 0 ==> swing(n, m) == 0,
{
    let c = CENTER * CENTER;
    let x = c * (n * n);
    assert(0 <= x <= c * m) by (nonlinear_arith)
        requires
            x == c * (n * n),
            0 <= c,
            n * n <= m,
    ;
    vstd::arithmetic::div_mod::lemma_div_is_ordered(x, c * m, m);
    vstd::arithmetic::div_mod::lemma_div_multiples_vanish(c, m);
    vstd::arithmetic::mul::lemma_mul_is_commutative(c, m);
    assert((c * m) / m == c);
    vstd::arithmetic::div_mod::lemma_div_pos_is_pos(x, m);
    lemma_floor_sqrt_monotonic(x / m, c);
    lemma_floor_sqrt_monotonic(0, x / m);
    lemma_floor_sqrt_of_square(CENTER as int);
    if n == 0 {
        assert(x == 0) by (nonlinear_arith)
            requires
                x == c * (n * n),
                n == 0,
        ;
    }
}

/// The pan lies between zero and [`UNIT`], whatever the two vectors.
pub proof fn lemma_pan_in_range(right: Vector, offset: Vector)
    ensures
        0 <= pan_level(right, offset) <= UNIT,
{
    let n = dot(right, offset);
    let m = norm_sq(right) * norm_sq(offset);
    lemma_cauchy_schwarz(right, offset);
    lemma_norm_sq_sign(right);
    lemma_norm_sq_sign(offset);
    assert(m >= 0) by (nonlinear_arith)
        requires
            m == norm_sq(right) * norm_sq(offset),
            norm_sq(right) >= 0,
            norm_sq(offset) >= 0,
    ;
    if m != 0 {
        lemma_swing_range(n, m);
    }
}

/// A source straight ahead of the listener, or anywhere else at a right angle
/// to the right axis, is heard in the center.
pub proof fn lemma_pan_centered_when_perpendicular(right: Vector, offset: Vector)
    requires
        dot(right, offset) == 0,
    ensures
        pan_level(right, offset) == CENTER,
{
    let m = norm_sq(right) * norm_sq(offset);
    lemma_norm_sq_sign(right);
    lemma_norm_sq_sign(offset);
    assert(m >= 0) by (nonlinear_arith)
        requires
            m == norm_sq(right) * norm_sq(offset),
            norm_sq(right) >= 0,
            norm_sq(offset) >= 0,
    ;
    if m != 0 {
        lemma_swing_range(0, m);
    }
}

/// A source on the right axis is heard full right on its positive side and
/// full left on its negative side.
pub proof fn lemma_pan_full_along_axis(right: Vector, offset: Vector)
    requires
        is_zero(cross(right, offset)),
        dot(right, offset) != 0,
    ensures
        dot(right, offset) > 0 ==> pan_level(right, offset) == UNIT,
        dot(right, offset) < 0 ==> pan_level(right, offset) == 0,
{
    let n = dot(right, offset);
    let m = norm_sq(right) * norm_sq(offset);
    lemma_cauchy_schwarz(right, offset);
    assert(n * n > 0) by (nonlinear_arith)
        requires
            n != 0,
    ;
    lemma_swing_range(n, m);
}

/// A source at the listener's own place is heard in the center at full volume.
pub proof fn lemma_coincident(right: Vector, offset: Vector)
    requires
        is_zero(offset),
    ensures
        pan_level(right, offset) == CENTER,
        volume_level(offset) == UNIT,
{
    lemma_norm_sq_sign(offset);
    assert(norm_sq(right) * norm_sq(offset) == 0) by (nonlinear_arith)
        requires
            norm_sq(offset) == 0,
    ;
}

/// The falloff is the one number `v` with
/// `v * v * dd <= (FALLOFF_RANGE * UNIT)^2 < (v + 1) * (v + 1) * dd`.
pub proof fn lemma_falloff_is_rounded_ratio(dd: int)
    requires
        dd > 0,
    ensures
        falloff(dd) >= 0,
        falloff(dd) * falloff(dd) * dd <= (FALLOFF_RANGE * UNIT) * (FALLOFF_RANGE * UNIT),
        (FALLOFF_RANGE * UNIT) * (FALLOFF_RANGE * UNIT) < (falloff(dd) + 1) * (falloff(dd) + 1)
            * dd,
{
    lemma_rounded_ratio((FALLOFF_RANGE * UNIT) * (FALLOFF_RANGE * UNIT), dd);
}

/// The falloff never grows with the distance.
proof fn lemma_falloff_monotonic(near: int, far: int)
    requires
        0 < near <= far,
    ensures
        falloff(near) >= falloff(far),
{
    let k = (FALLOFF_RANGE * UNIT) * (FALLOFF_RANGE * UNIT);
    vstd::arithmetic::div_mod::lemma_div_is_ordered_by_denominator(k, near, far);
    lemma_floor_sqrt_monotonic(k / far, k / near);
}

/// The volume never exceeds [`UNIT`], and it is above zero exactly up to the
/// distance [`FALLOFF_RANGE`] times [`UNIT`], which no two positions reach.
pub proof fn lemma_volume_in_range(offset: Vector)
    ensures
        0 <= volume_level(offset) <= UNIT,
        volume_level(offset) > 0 <==> norm_sq(offset) <= (FALLOFF_RANGE * UNIT) * (FALLOFF_RANGE
            * UNIT),
{
    let dd = norm_sq(offset);
    let k = (FALLOFF_RANGE * UNIT) * (FALLOFF_RANGE * UNIT);
    lemma_norm_sq_sign(offset);
    if dd > 0 {
        lemma_falloff_is_rounded_ratio(dd);
        let v = falloff(dd);
        if dd <= k {
            if v == 0 {
                assert((v + 1) * (v + 1) * dd == dd) by (nonlinear_arith)
                    requires
                        v == 0,
                ;
            }
        } else {
            if v > 0 {
                assert(v * v * dd >= dd) by (nonlinear_arith)
                    requires
                        v >= 1,
                        dd > 0,
                ;
            }
        }
    }
}

/// Up to the distance [`FALLOFF_RANGE`] the volume is [`UNIT`]: it does not
/// grow without bound as the source comes near.
pub proof fn lemma_volume_saturates(offset: Vector)
    requires
        norm_sq(offset) <= FALLOFF_RANGE * FALLOFF_RANGE,
    ensures
        volume_level(offset) == UNIT,
{
    let dd = norm_sq(offset);
    lemma_norm_sq_sign(offset);
    if dd > 0 {
        lemma_falloff_is_rounded_ratio(dd);
        let v = falloff(dd);
        if v < UNIT {
            assert((v + 1) * (v + 1) * dd <= (UNIT * UNIT) * (FALLOFF_RANGE * FALLOFF_RANGE))
                by (nonlinear_arith)
                requires
                    0 <= v,
                    v + 1 <= UNIT,
                    0 < dd <= FALLOFF_RANGE * FALLOFF_RANGE,
            ;
            assert((UNIT * UNIT) * (FALLOFF_RANGE * FALLOFF_RANGE) == (FALLOFF_RANGE * UNIT) * (
            FALLOFF_RANGE * UNIT)) by (nonlinear_arith);
        }
    }
}

/// Of two sources the farther one is never the louder.
pub proof fn lemma_volume_monotonic(near: Vector, far: Vector)
    requires
        norm_sq(near) <= norm_sq(far),
    ensures
        volume_level(near) >= volume_level(far),
{
    lemma_norm_sq_sign(near);
    lemma_norm_sq_sign(far);
    lemma_volume_in_range(far);
    if norm_sq(near) > 0 {
        lemma_falloff_monotonic(norm_sq(near), norm_sq(far));
    }
}

/// A pass is a function of what it is given: two passes over the same listener
/// and the same sources set every channel to the same values.
pub proof fn lemma_pass_repeatable(
    first: Seq<Mix>,
    second: Seq<Mix>,
    listener: Option<Listener>,
    emitters: Seq<Position>,
)
    requires
        is_frame_for(first, listener, emitters),
        is_frame_for(second, listener, emitters),
    ensures
        first == second,
{
    match listener {
        None => {
            assert(first =~= second);
        },
        Some(l) => {
            assert forall|i: int| 0 <= i < first.len() implies first[i] == second[i] by {
                assert(is_mix_for(first[i], l, emitters[i]));
                assert(is_mix_for(second[i], l, emitters[i]));
            }
            assert(first =~= second);
        },
    }
}

/// What a source is set to depends on its own place alone, not on the other
/// sources nor on where in the list it stands.
pub proof fn lemma_pass_order_insensitive(
    first: Seq<Mix>,
    second: Seq<Mix>,
    listener: Listener,
    emitters: Seq<Position>,
    others: Seq<Position>,
    i: int,
    j: int,
)
    requires
        is_frame_for(first, Some(listener), emitters),
        is_frame_for(second, Some(listener), others),
        0 <= i < emitters.len(),
        0 <= j < others.len(),
        emitters[i]@ == others[j]@,
    ensures
        first[i] == second[j],
{
    assert(is_mix_for(first[i], listener, emitters[i]));
    assert(is_mix_for(second[j], listener, others[j]));
}

/// The vector from the listener to the source, with each component widened
/// so that the products below cannot overflow.
fn offset_of(listener: &Listener, emitter: &Position) -> (d: (i64, i64, i64))
    ensures
        (Vector { x: d.0 as int, y: d.1 as int, z: d.2 as int }) == between(
            listener.position@,
            emitter@,
        ),
        -200_000_000 <= d.0 <= 200_000_000,
        -200_000_000 <= d.1 <= 200_000_000,
        -200_000_000 <= d.2 <= 200_000_000,
{
    let dx: i64 = emitter.x() as i64 - listener.position.x() as i64;
    let dy: i64 = emitter.y() as i64 - listener.position.y() as i64;
    let dz: i64 = emitter.z() as i64 - listener.position.z() as i64;
    (dx, dy, dz)
}

/// The squared length of an offset.
fn squared_length(d: (i64, i64, i64)) -> (dd: u64)
    requires
        -200_000_000 <= d.0 <= 200_000_000,
        -200_000_000 <= d.1 <= 200_000_000,
        -200_000_000 <= d.2 <= 200_000_000,
    ensures
        dd == norm_sq(Vector { x: d.0 as int, y: d.1 as int, z: d.2 as int }),
        dd <= 120_000_000_000_000_000,
{
    let (dx, dy, dz) = d;
    assert(0 <= dx * dx <= 40_000_000_000_000_000) by (nonlinear_arith)
        requires
            -200_000_000 <= dx <= 200_000_000,
    ;
    assert(0 <= dy * dy <= 40_000_000_000_000_000) by (nonlinear_arith)
        requires
            -200_000_000 <= dy <= 200_000_000,
    ;
    assert(0 <= dz * dz <= 40_000_000_000_000_000) by (nonlinear_arith)
        requires
            -200_000_000 <= dz <= 200_000_000,
    ;
    let sum: i64 = dx * dx + dy * dy + dz * dz;
    sum as u64
}

/// The pan of a source at `emitter` as `listener` hears it: zero is full left,
/// [`CENTER`] the middle, [`UNIT`] full right.
pub fn pan(listener: &Listener, emitter: &Position) -> (level: u32)
    ensures
        level == pan_level(listener.right@, between(listener.position@, emitter@)),
        level <= UNIT,
{
    let d = offset_of(listener, emitter);
    let (dx, dy, dz) = d;
    let rx: i64 = listener.right.x as i64;
    let ry: i64 = listener.right.y as i64;
    let rz: i64 = listener.right.z as i64;
    let ghost right = listener.right@;
    let ghost offset = between(listener.position@, emitter@);
    proof {
        lemma_pan_in_range(right, offset);
        lemma_cauchy_schwarz(right, offset);
        lemma_norm_sq_sign(right);
        assert(-6_553_600_000_000 <= rx * dx <= 6_553_600_000_000) by (nonlinear_arith)
            requires
                -32768 <= rx <= 32768,
                -200_000_000 <= dx <= 200_000_000,
        ;
        assert(-6_553_600_000_000 <= ry * dy <= 6_553_600_000_000) by (nonlinear_arith)
            requires
                -32768 <= ry <= 32768,
                -200_000_000 <= dy <= 200_000_000,
        ;
        assert(-6_553_600_000_000 <= rz * dz <= 6_553_600_000_000) by (nonlinear_arith)
            requires
                -32768 <= rz <= 32768,
                -200_000_000 <= dz <= 200_000_000,
        ;
        assert(0 <= rx * rx <= 1_073_741_824) by (nonlinear_arith)
            requires
                -32768 <= rx <= 32768,
        ;
        assert(0 <= ry * ry <= 1_073_741_824) by (nonlinear_arith)
            requires
                -32768 <= ry <= 32768,
        ;
        assert(0 <= rz * rz <= 1_073_741_824) by (nonlinear_arith)
            requires
                -32768 <= rz <= 32768,
        ;
    }
    let n: i64 = rx * dx + ry * dy + rz * dz;
    let rr: u64 = (rx * rx + ry * ry + rz * rz) as u64;
    let dd: u64 = squared_length(d);
    assert(n == dot(right, offset));
    assert(rr == norm_sq(right));
    assert(dd == norm_sq(offset));
    assert(rr * dd <= 3_221_225_472 * 120_000_000_000_000_000) by (nonlinear_arith)
        requires
            0 <= rr <= 3_221_225_472,
            0 <= dd <= 120_000_000_000_000_000,
    ;
    let m: u128 = (rr as u128) * (dd as u128);
    if m == 0 {
        return CENTER;
    }
    let a: u128 = if n < 0 {
        (-n) as u128
    } else {
        n as u128
    };
    assert(a * a == n * n) by (nonlinear_arith)
        requires
            a == n || a == -n,
    ;
    let half: u128 = CENTER as u128;
    assert(half * half * (a * a) <= 250_000_000_000 * (3_221_225_472
        * 120_000_000_000_000_000)) by (nonlinear_arith)
        requires
            half == 500_000,
            0 <= a * a <= 3_221_225_472 * 120_000_000_000_000_000,
    ;
    let num: u128 = half * half * (a * a);
    let q: u128 = num / m;
    proof {
        lemma_swing_range(n as int, m as int);
        assert(num as int == CENTER * CENTER * (n * n));
    }
    let s: u64 = isqrt(q as u64);
    if n >= 0 {
        CENTER + s as u32
    } else {
        CENTER - s as u32
    }
}

/// The volume of a source at `emitter` as `listener` hears it: [`UNIT`] up to
/// the distance [`FALLOFF_RANGE`], and beyond it that distance over the real
/// one. It never reaches zero.
pub fn volume(listener: &Listener, emitter: &Position) -> (level: u32)
    ensures
        level == volume_level(between(listener.position@, emitter@)),
        0 < level <= UNIT,
{
    let d = offset_of(listener, emitter);
    let dd: u64 = squared_length(d);
    let ghost offset = between(listener.position@, emitter@);
    proof {
        lemma_volume_in_range(offset);
    }
    let range: u64 = FALLOFF_RANGE as u64;
    if dd <= range * range {
        proof {
            lemma_volume_saturates(offset);
        }
        return UNIT;
    }
    let k: u128 = (FALLOFF_RANGE as u128) * (UNIT as u128);
    assert(k * k == 100_000_000_000_000_000_000) by (nonlinear_arith)
        requires
            k == 10_000_000_000,
    ;
    let q: u128 = (k * k) / (dd as u128);
    proof {
        let kk = (FALLOFF_RANGE * UNIT) * (FALLOFF_RANGE * UNIT);
        assert(kk == k * k);
        assert(kk == (UNIT * UNIT) * (FALLOFF_RANGE * FALLOFF_RANGE)) by (nonlinear_arith)
            requires
                kk == (FALLOFF_RANGE * UNIT) * (FALLOFF_RANGE * UNIT),
        ;
        vstd::arithmetic::div_mod::lemma_div_is_ordered_by_denominator(
            kk,
            FALLOFF_RANGE * FALLOFF_RANGE,
            dd as int,
        );
        vstd::arithmetic::div_mod::lemma_div_multiples_vanish(
            UNIT * UNIT,
            FALLOFF_RANGE * FALLOFF_RANGE,
        );
        vstd::arithmetic::mul::lemma_mul_is_commutative(
            UNIT * UNIT,
            FALLOFF_RANGE * FALLOFF_RANGE,
        );
        assert(q <= UNIT * UNIT);
        lemma_floor_sqrt_monotonic(q as int, UNIT * UNIT);
        lemma_floor_sqrt_of_square(UNIT as int);
    }
    let v: u64 = isqrt(q as u64);
    if v < UNIT as u64 {
        v as u32
    } else {
        UNIT
    }
}

/// Both settings of one source's channel.
pub fn place(listener: &Listener, emitter: &Position) -> (mix: Mix)
    ensures
        is_mix_for(mix, *listener, *emitter),
        mix.pan <= UNIT,
        0 < mix.volume <= UNIT,
{
    Mix { pan: pan(listener, emitter), volume: volume(listener, emitter) }
}

/// One pass over all sources: the settings of each source's channel, in the
/// order of `emitters`. Without a listener the pass does nothing and returns
/// an empty list.
pub fn spatialize(listener: Option<Listener>, emitters: &Vec<Position>) -> (mixes: Vec<Mix>)
    ensures
        is_frame_for(mixes@, listener, emitters@),
        listener.is_some() ==> forall|i: int|
            0 <= i < mixes@.len() ==> (#[trigger] mixes@[i]).pan <= UNIT && 0 < mixes@[i].volume
                <= UNIT,
{
    let mut mixes: Vec<Mix> = Vec::new();
    match listener {
        None => {},
        Some(l) => {
            let mut i: usize = 0;
            while i < emitters.len()
                invariant
                    i <= emitters@.len(),
                    mixes@.len() == i,
                    forall|j: int| 0 <= j < i ==> is_mix_for(#[trigger] mixes@[j], l, emitters@[j]),
                    forall|j: int|
                        0 <= j < i ==> (#[trigger] mixes@[j]).pan <= UNIT && 0 < mixes@[j].volume
                            <= UNIT,
                decreases emitters@.len() - i,
            {
                let mix = place(&l, &emitters[i]);
                mixes.push(mix);
                i = i + 1;
            }
        },
    }
    mixes
}


} // verus!
