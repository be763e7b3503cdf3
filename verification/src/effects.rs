//! Effects: a turn through the colours, and a pulse.
use crate::apply;
use crate::backend;
use crate::backend::{Backend, FileWrite, LedChannels};
use crate::battery::LedColor;
use crate::binary64;
use crate::binary64::Binary64;
use crate::conf;
use crate::text;
use vstd::arithmetic::power2::*;
use vstd::prelude::*;

verus! {

/// How many frames an effect has.
pub const EFFECT_STEPS: u32 = 60;

/// How long a turn through the colours takes, in milliseconds.
pub const EFFECT_DURATION_MS: u64 = 2000;

/// How long a pulse takes, in milliseconds.
pub const PULSE_DURATION_MS: u64 = 1000;

/// A whole number cut down to eight bits from above.
pub open spec fn capped(n: nat) -> u8 {
    if n <= 255 {
        n as u8
    } else {
        255
    }
}

// ---------------------------------------------------------------------------
// Frames
// ---------------------------------------------------------------------------

/// How far an angle of the colour circle lies behind `start`, each step rounded to double
/// precision.
pub open spec fn distance(angle: binary64::Dyadic, start: nat) -> binary64::Dyadic {
    if angle.below(start) {
        angle.plus(360).minus(start)
    } else {
        angle.minus(start)
    }
}

/// A component of the colour at an angle of the colour circle. From `start` on it rises
/// for sixty degrees, stays full for a hundred and twenty, and falls for sixty. Each step
/// is rounded to double precision.
pub open spec fn component_at(angle: binary64::Dyadic, start: nat) -> u8 {
    let diff = distance(angle, start);
    if diff.below(60) {
        capped(diff.over(60).times(255).whole())
    } else if diff.at_most(180) {
        255
    } else if diff.below(240) {
        capped(diff.subtracted_from(240).over(60).times(255).whole())
    } else {
        0
    }
}

/// The angle at a step of a turn through the colours.
pub open spec fn angle_at(step: u32, total_steps: u32) -> binary64::Dyadic {
    binary64::quotient_of(step as nat, total_steps as nat).times(360)
}

/// The colour at a step of a turn through the colours.
pub open spec fn rainbow_color(step: u32, total_steps: u32) -> (u8, u8, u8) {
    let angle = angle_at(step, total_steps);
    (component_at(angle, 120), component_at(angle, 240), component_at(angle, 0))
}

/// The factor of a pulse at a step: it falls from one to zero in the first half, and
/// rises again in the second.
pub open spec fn factor_at(step: u32, total_steps: u32) -> binary64::Dyadic {
    if 2 * step < total_steps {
        binary64::quotient_of((2 * step) as nat, total_steps as nat).subtracted_from(1)
    } else {
        binary64::quotient_of((2 * step - total_steps) as nat, total_steps as nat)
    }
}

/// A component of a colour at a step of a pulse.
pub open spec fn pulsed(c: u8, step: u32, total_steps: u32) -> u8 {
    capped(factor_at(step, total_steps).times(c as nat).whole())
}

/// A colour at a step of a pulse.
pub open spec fn pulsed_color(c: (u8, u8, u8), step: u32, total_steps: u32) -> (u8, u8, u8) {
    (
        pulsed(c.0, step, total_steps),
        pulsed(c.1, step, total_steps),
        pulsed(c.2, step, total_steps),
    )
}

/// A number of at most 53 bits is not rounded.
proof fn lemma_exact(m: nat, e: nat)
    requires
        m < binary64::LIMIT,
    ensures
        binary64::rounded(m, e) == (binary64::Dyadic { mant: m, exp: e }),
{
    lemma2_to64();
    assert(m / 1 == m && m % 1 == 0);
}

/// A sixtieth of a value times 255 keeps its binary places.
fn rise(diff: Binary64) -> (r: u8)
    requires
        diff@.wf(),
        diff.exp <= 100,
        diff.exp >= 9 || diff.mant == 0,
    ensures
        r == capped(diff@.over(60).times(255).whole()),
{
    let part = diff.div(60);
    proof {
        binary64::lemma_product(part.mant as nat, 255);
        if diff.mant == 0 {
            binary64::lemma_quotient(0, 60, 0);
            assert(0 * pow2(part.exp as nat) == 0);
            assert(0 * pow2(0) == 0);
            assert(binary64::quotient_of(0, 60).mant == 0);
        }
    }
    part.mul(255).to_u8()
}

fn component(angle: Binary64, start: u32) -> (r: u8)
    requires
        angle@.wf(),
        angle.exp <= 84,
        angle.exp >= 11 || (angle.mant == 0 && angle.exp == 0),
        start == 0 || start == 120 || start == 240,
    ensures
        r == component_at(angle@, start as nat),
{
    let ghost e = angle.exp as nat;
    let ghost p = pow2(e);
    proof {
        lemma2_to64();
        lemma_pow2_pos(e);
    }
    let diff = if angle.less_than(start) {
        let ghost m = (angle.mant + 360 * p) as nat;
        proof {
            assert(m <= 1024 * p) by (nonlinear_arith)
                requires
                    m == angle.mant + 360 * p,
                    angle.mant < start * p,
                    start <= 240,
            ;
            binary64::lemma_rounded_places(m, e, 10);
            binary64::lemma_rounded(m, e, 360);
        }
        let turned = angle.add(360);
        proof {
            let f = pow2(turned.exp as nat);
            assert(turned.mant >= start * f) by (nonlinear_arith)
                requires
                    turned.mant >= 360 * f,
                    start <= 360,
            ;
            if e == 0 {
                lemma_exact(360, 0);
            }
        }
        turned.sub(start)
    } else {
        angle.sub(start)
    };
    proof {
        if e == 0 {
            lemma_exact(360, 0);
            if start > 0 {
                lemma_exact((360 - start) as nat, 0);
            } else {
                lemma_exact(0, 0);
            }
        }
    }
    if diff.less_than(60) {
        rise(diff)
    } else if diff.no_more_than(180) {
        255
    } else if diff.less_than(240) {
        let ghost d = diff.exp as nat;
        let ghost q = pow2(d);
        proof {
            let m = (240 * q - diff.mant) as nat;
            assert(m <= 256 * q) by (nonlinear_arith)
                requires
                    m <= 240 * q,
            ;
            binary64::lemma_rounded_places(m, d, 8);
        }
        rise(diff.sub_from(240))
    } else {
        0
    }
}

/// The colour at a step of a turn through the colours.
pub fn rainbow_rgb(step: u32, total_steps: u32) -> (r: (u8, u8, u8))
    requires
        total_steps > 0,
    ensures
        r == rainbow_color(step, total_steps),
{
    let pos = Binary64::quotient(step as u64, total_steps);
    proof {
        lemma2_to64();
        if step > 0 {
            assert(step <= total_steps * pow2(32)) by (nonlinear_arith)
                requires
                    total_steps >= 1,
                    pow2(32) == 0x100000000,
                    step < 0x100000000,
            ;
            binary64::lemma_doublings_least(step as nat, total_steps as nat, 32);
        } else {
            lemma_quotient_of_zero(total_steps as nat);
        }
        binary64::lemma_product(pos.mant as nat, 360);
        if step == 0 {
            lemma_exact(0, 0);
        }
    }
    let angle = pos.mul(360);
    (component(angle, 120), component(angle, 240), component(angle, 0))
}

proof fn lemma_quotient_of_zero(d: nat)
    requires
        d > 0,
    ensures
        binary64::quotient_of(0, d) == (binary64::Dyadic { mant: 0, exp: 0 }),
{
    binary64::lemma_quotient(0, d, 0);
    assert(0 * pow2(0) == 0);
    assert(0 * d == 0);
}

/// What is known of the angle of a step: its size, and that it can be rounded.
proof fn lemma_angle(step: u32, total_steps: u32)
    requires
        step <= total_steps,
        total_steps > 0,
    ensures
        ({
            let angle = angle_at(step, total_steps);
            &&& angle.wf()
            &&& angle.exp >= 11 || (angle.mant == 0 && angle.exp == 0)
            &&& angle.at_most(360)
        }),
{
    let pos = binary64::quotient_of(step as nat, total_steps as nat);
    let p = pow2(pos.exp);
    lemma2_to64();
    binary64::lemma_quotient(step as nat, total_steps as nat, 1);
    binary64::lemma_product(pos.mant, 360);
    if step > 0 {
        binary64::lemma_doublings_least(step as nat, total_steps as nat, 0);
        assert(pos.mant * 360 <= 360 * p) by (nonlinear_arith)
            requires
                pos.mant <= p,
        ;
        binary64::lemma_rounded(pos.mant * 360, pos.exp, 360);
    } else {
        lemma_quotient_of_zero(total_steps as nat);
        lemma_exact(0, 0);
    }
}

/// Whole numbers of degrees that bound the way from `start` to an angle bound what is
/// computed for it.
proof fn lemma_distance(angle: binary64::Dyadic, start: nat, least: nat, most: nat)
    requires
        angle.wf(),
        angle.exp >= 11 || (angle.mant == 0 && angle.exp == 0),
        start <= 360,
        most <= 360,
        angle.below(start) ==> {
            &&& angle.mant + 360 * pow2(angle.exp) >= least * pow2(angle.exp) + start * pow2(angle.exp)
            &&& angle.mant + 360 * pow2(angle.exp) <= most * pow2(angle.exp) + start * pow2(angle.exp)
        },
        !angle.below(start) ==> {
            &&& angle.mant >= least * pow2(angle.exp) + start * pow2(angle.exp)
            &&& angle.mant <= most * pow2(angle.exp) + start * pow2(angle.exp)
        },
    ensures
        !distance(angle, start).below(least),
        distance(angle, start).at_most(most),
{
    let e = angle.exp;
    let p = pow2(e);
    lemma2_to64();
    lemma_pow2_pos(e);
    assert((least + start) * p == least * p + start * p) by (nonlinear_arith);
    assert((most + start) * p == most * p + start * p) by (nonlinear_arith);
    let from = if angle.below(start) {
        let m = angle.mant + 360 * p;
        assert(m <= 1024 * p) by (nonlinear_arith)
            requires
                m <= (most + start) * p,
                most <= 360,
                start <= 360,
        ;
        binary64::lemma_rounded_places(m, e, 10);
        binary64::lemma_rounded(m, e, least + start);
        binary64::lemma_rounded(m, e, most + start);
        if e == 0 {
            lemma_exact(360, 0);
        }
        angle.plus(360)
    } else {
        angle
    };
    let f = pow2(from.exp);
    let m = (from.mant - start * f) as nat;
    assert((least + start) * f == least * f + start * f) by (nonlinear_arith);
    assert((most + start) * f == most * f + start * f) by (nonlinear_arith);
    assert(least * f >= 0) by (nonlinear_arith);
    assert(m <= binary64::LIMIT);
    binary64::lemma_excess(m, 1);
    if from.exp == 0 {
        assert(m <= 360);
    }
    binary64::lemma_rounded(m, from.exp, least);
    binary64::lemma_rounded(m, from.exp, most);
}

/// Every frame of a turn through the colours is a pure colour: one component is full, and
/// one is dark.
pub proof fn law_rainbow_is_pure(step: u32, total_steps: u32)
    requires
        step <= total_steps,
        total_steps > 0,
    ensures
        ({
            let (r, g, b) = rainbow_color(step, total_steps);
            &&& r == 255 || g == 255 || b == 255
            &&& r == 0 || g == 0 || b == 0
        }),
{
    let angle = angle_at(step, total_steps);
    let p = pow2(angle.exp);
    lemma_angle(step, total_steps);
    lemma_pow2_pos(angle.exp);
    if angle.at_most(60) {
        lemma_full(angle, 240);
    } else if angle.at_most(180) {
        lemma_full(angle, 0);
    } else if angle.at_most(300) {
        lemma_full(angle, 120);
    } else {
        lemma_full(angle, 240);
    }
    if angle.below(120) {
        lemma_dark(angle, 120);
    } else if angle.below(240) {
        lemma_dark(angle, 240);
    } else {
        lemma_dark(angle, 0);
    }
}

/// The circle of colours closes: a whole turn ends with the colour that it began with.
pub proof fn law_rainbow_closes(total_steps: u32)
    requires
        total_steps > 0,
    ensures
        rainbow_color(total_steps, total_steps) == rainbow_color(0, total_steps),
{
    let d = total_steps as nat;
    let end = angle_at(total_steps, total_steps);
    lemma2_to64();
    lemma_angle(total_steps, total_steps);
    let one = binary64::quotient_of(d, d);
    binary64::lemma_quotient(d, d, 1);
    binary64::lemma_doublings_least(d, d, 0);
    binary64::lemma_product(one.mant, 360);
    binary64::lemma_rounded(one.mant * 360, one.exp, 360);
    lemma_pow2_pos(end.exp);
    assert(!end.below(360));
    lemma_dark(end, 120);
    lemma_full(end, 240);
    lemma_dark(end, 0);

    let start = angle_at(0, total_steps);
    lemma_angle(0, total_steps);
    lemma_quotient_of_zero(d);
    lemma_exact(0, 0);
    assert(start == (binary64::Dyadic { mant: 0, exp: 0 }));
    lemma_dark(start, 120);
    lemma_full(start, 240);
    lemma_quotient_of_zero(60);
    assert(0nat * 255 == 0);
    assert(component_at(start, 0) == 0);
}

/// Where a component is full.
proof fn lemma_full(angle: binary64::Dyadic, start: nat)
    requires
        angle.wf(),
        angle.exp >= 11 || (angle.mant == 0 && angle.exp == 0),
        start == 0 || start == 120 || start == 240,
        angle.at_most(360),
        start == 0 ==> !angle.below(60) && angle.at_most(180),
        start == 120 ==> !angle.below(180) && angle.at_most(300),
        start == 240 ==> angle.at_most(60) || !angle.below(300),
    ensures
        component_at(angle, start) == 255,
{
    lemma_pow2_pos(angle.exp);
    if start == 0 {
        lemma_distance(angle, 0, 60, 180);
    } else if start == 120 {
        lemma_distance(angle, 120, 60, 180);
    } else {
        lemma_distance(angle, 240, 60, 180);
    }
}

/// Where a component is dark.
proof fn lemma_dark(angle: binary64::Dyadic, start: nat)
    requires
        angle.wf(),
        angle.exp >= 11 || (angle.mant == 0 && angle.exp == 0),
        start == 0 || start == 120 || start == 240,
        angle.at_most(360),
        start == 0 ==> !angle.below(240),
        start == 120 ==> angle.below(120) || !angle.below(360),
        start == 240 ==> !angle.below(120) && angle.below(240),
    ensures
        component_at(angle, start) == 0,
{
    let d = distance(angle, start);
    let p = pow2(angle.exp);
    assert(0 * p == 0);
    if start == 0 {
        assert(240 * p <= angle.mant <= 360 * p);
        lemma_distance(angle, 0, 240, 360);
    } else if start == 120 {
        assert(angle.mant < 120 * p || angle.mant == 360 * p);
        lemma_distance(angle, 120, 240, 360);
    } else {
        assert(120 * p <= angle.mant < 240 * p);
        lemma_distance(angle, 240, 240, 360);
    }
    lemma_pow2_pos(d.exp);
}

/// What is known of the factor of a pulse: its size, and that it can be multiplied.
proof fn lemma_factor(step: u32, total_steps: u32)
    requires
        total_steps > 0,
    ensures
        ({
            let f = factor_at(step, total_steps);
            &&& f.wf()
            &&& f.exp >= 9 || f.mant <= 1
            &&& step <= total_steps ==> f.at_most(1)
            &&& 2 * step < total_steps ==> ({
                let q = binary64::quotient_of((2 * step) as nat, total_steps as nat);
                &&& q.wf()
                &&& q.at_most(1)
                &&& binary64::excess((pow2(q.exp) - q.mant) as nat) <= q.exp
            })
        }),
{
    lemma2_to64();
    let d = total_steps as nat;
    if 2 * step < total_steps {
        let n = (2 * step) as nat;
        let q = binary64::quotient_of(n, d);
        binary64::lemma_quotient(n, d, 1);
        let m = (pow2(q.exp) - q.mant) as nat;
        if n == 0 {
            lemma_quotient_of_zero(d);
            lemma_exact(1, 0);
            assert(factor_at(step, total_steps) == (binary64::Dyadic { mant: 1, exp: 0 }));
        } else {
            binary64::lemma_doublings_least(n, d, 0);
            binary64::lemma_rounded_places(m, q.exp, 0);
            binary64::lemma_rounded(m, q.exp, 1);
        }
    } else {
        let n = (2 * step - total_steps) as nat;
        binary64::lemma_quotient(n, d, 1);
        if n == 0 {
            lemma_quotient_of_zero(d);
        } else {
            lemma2_to64_rest();
            assert(n <= d * pow2(33)) by (nonlinear_arith)
                requires
                    d >= 1,
                    pow2(33) == 0x200000000,
                    n < 0x200000000,
            ;
            binary64::lemma_doublings_least(n, d, 33);
        }
    }
}

/// The factor of a pulse at a step.
pub fn pulse_factor(step: u32, total_steps: u32) -> (r: Binary64)
    requires
        total_steps > 0,
    ensures
        r@ == factor_at(step, total_steps),
{
    let n: u64 = 2 * step as u64;
    let total: u64 = total_steps as u64;
    proof {
        lemma_factor(step, total_steps);
    }
    if n < total {
        Binary64::quotient(n, total_steps).sub_from(1)
    } else {
        Binary64::quotient(n - total, total_steps)
    }
}

/// A colour at a step of a pulse.
pub fn pulse_rgb(c: (u8, u8, u8), step: u32, total_steps: u32) -> (r: (u8, u8, u8))
    requires
        total_steps > 0,
    ensures
        r == pulsed_color(c, step, total_steps),
{
    let f = pulse_factor(step, total_steps);
    proof {
        lemma_factor(step, total_steps);
        binary64::lemma_product(f.mant as nat, c.0 as nat);
        binary64::lemma_product(f.mant as nat, c.1 as nat);
        binary64::lemma_product(f.mant as nat, c.2 as nat);
    }
    (f.mul(c.0 as u32).to_u8(), f.mul(c.1 as u32).to_u8(), f.mul(c.2 as u32).to_u8())
}

/// No step of a pulse makes a component brighter than it is.
pub proof fn law_pulse_dims(c: u8, step: u32, total_steps: u32)
    requires
        step <= total_steps,
        total_steps > 0,
    ensures
        pulsed(c, step, total_steps) <= c,
{
    let f = factor_at(step, total_steps);
    lemma_factor(step, total_steps);
    binary64::lemma_product(f.mant, c as nat);
    let p = pow2(f.exp);
    assert(f.mant * c as nat <= c * p) by (nonlinear_arith)
        requires
            f.mant <= p,
    ;
    binary64::lemma_rounded(f.mant * c as nat, f.exp, c as nat);
    binary64::lemma_whole(f.times(c as nat), c as nat);
}

/// A pulse begins with the colour itself.
pub proof fn law_pulse_begins_full(c: u8, total_steps: u32)
    requires
        total_steps > 0,
    ensures
        pulsed(c, 0, total_steps) == c,
{
    lemma2_to64();
    lemma_quotient_of_zero(total_steps as nat);
    lemma_exact(1, 0);
    assert(1 * c as nat == c);
    lemma_exact(c as nat, 0);
}

/// Half way through, a pulse is dark.
pub proof fn law_pulse_is_dark_half_way(c: u8, step: u32, total_steps: u32)
    requires
        2 * step == total_steps,
        total_steps > 0,
    ensures
        pulsed(c, step, total_steps) == 0,
{
    lemma2_to64();
    lemma_quotient_of_zero(total_steps as nat);
    assert(0 * c as nat == 0);
    lemma_exact(0, 0);
}

// ---------------------------------------------------------------------------
// Running effects
// ---------------------------------------------------------------------------

/// One step of what is done to show something. Nothing follows a write that fails.
pub enum Action {
    /// Write a file.
    Write(FileWrite),
    /// Wait for some milliseconds.
    Sleep(u64),
}

/// What a step does.
pub enum Deed {
    Write(backend::Written),
    Sleep(u64),
}

impl View for Action {
    type V = Deed;

    open spec fn view(&self) -> Deed {
        match *self {
            Action::Write(w) => Deed::Write(w@),
            Action::Sleep(ms) => Deed::Sleep(ms),
        }
    }
}

/// What a list of steps does.
pub open spec fn deeds(actions: Seq<Action>) -> Seq<Deed> {
    actions.map_values(|a: Action| a@)
}

/// Writes, as steps.
pub open spec fn write_deeds(writes: Seq<backend::Written>) -> Seq<Deed> {
    writes.map_values(|w: backend::Written| Deed::Write(w))
}

/// The steps that show a colour.
pub open spec fn show(b: Backend, c: (u8, u8, u8)) -> Seq<Deed> {
    write_deeds(b.color_writes(c.0, c.1, c.2))
}

/// The steps of the first `n` frames of an effect: each is shown, and then there is a
/// pause.
pub open spec fn frames(
    b: Backend,
    frame: spec_fn(u32) -> (u8, u8, u8),
    pause: u64,
    n: nat,
) -> Seq<Deed>
    decreases n,
{
    if n == 0 {
        seq![]
    } else {
        frames(b, frame, pause, (n - 1) as nat) + show(b, frame((n - 1) as u32)) + seq![
            Deed::Sleep(pause),
        ]
    }
}

/// The frames of a turn through the colours.
pub open spec fn rainbow_frame() -> spec_fn(u32) -> (u8, u8, u8) {
    |step: u32| rainbow_color(step, EFFECT_STEPS)
}

/// The frames of a pulse of a colour.
pub open spec fn pulse_frame(c: (u8, u8, u8)) -> spec_fn(u32) -> (u8, u8, u8) {
    |step: u32| pulsed_color(c, step, EFFECT_STEPS)
}

/// The pause behind each frame of a turn through the colours, in milliseconds.
pub open spec fn rainbow_pause() -> u64 {
    EFFECT_DURATION_MS / EFFECT_STEPS as u64
}

/// The pause behind each frame of a pulse, in milliseconds.
pub open spec fn pulse_pause() -> u64 {
    PULSE_DURATION_MS / EFFECT_STEPS as u64
}

/// The steps of a turn through the colours, after which the colour is the one before.
pub open spec fn rainbow_deeds(b: Backend, prev: (u8, u8, u8)) -> Seq<Deed> {
    frames(b, rainbow_frame(), rainbow_pause(), EFFECT_STEPS as nat) + show(b, prev)
}

/// The steps of a pulse, after which the colour is the one before.
pub open spec fn pulse_deeds(b: Backend, prev: (u8, u8, u8)) -> Seq<Deed> {
    frames(b, pulse_frame(prev), pulse_pause(), EFFECT_STEPS as nat) + show(b, prev)
}

/// Adds the steps that show a colour.
fn push_show(actions: &mut Vec<Action>, b: &Backend, c: (u8, u8, u8))
    requires
        b.wf(),
    ensures
        deeds(final(actions)@) == deeds(old(actions)@) + show(*b, c),
{
    let ghost before = deeds(actions@);
    let mut writes = b.set_all_color(c.0, c.1, c.2);
    let ghost all = writes@;
    let ghost wanted = show(*b, c);
    assert(backend::plan(all).len() == all.len());
    assert(before =~= before + wanted.take(0));
    assert(writes@ =~= all.skip(0));
    let mut i: usize = 0;
    let n: usize = writes.len();
    while i < n
        invariant
            i <= n,
            n == all.len(),
            writes@ == all.skip(i as int),
            wanted == show(*b, c),
            backend::plan(all) == b.color_writes(c.0, c.1, c.2),
            backend::plan(all).len() == all.len(),
            deeds(actions@) == before + wanted.take(i as int),
        decreases n - i,
    {
        let ghost earlier = deeds(actions@);
        let w = writes.remove(0);
        assert(w == all[i as int]);
        assert(backend::plan(all)[i as int] == w@);
        actions.push(Action::Write(w));
        assert(deeds(actions@) =~= earlier.push(Deed::Write(w@)));
        assert(wanted[i as int] == Deed::Write(w@));
        assert(wanted.take(i + 1) =~= wanted.take(i as int).push(wanted[i as int]));
        assert(deeds(actions@) =~= before + wanted.take(i + 1));
        assert(writes@ =~= all.skip(i + 1));
        i += 1;
    }
    assert(wanted.take(n as int) =~= wanted);
}

fn push_sleep(actions: &mut Vec<Action>, ms: u64)
    ensures
        deeds(final(actions)@) == deeds(old(actions)@).push(Deed::Sleep(ms)),
{
    let ghost before = actions@;
    actions.push(Action::Sleep(ms));
    assert(deeds(actions@) =~= deeds(before).push(Deed::Sleep(ms)));
}

/// The colour before an effect: the one that was read, or black where none could be.
pub fn color_before(read: Option<(u8, u8, u8)>) -> (r: (u8, u8, u8))
    ensures
        r == (match read {
            Some(c) => c,
            None => (0, 0, 0),
        }),
{
    match read {
        Some(c) => c,
        None => (0, 0, 0),
    }
}

/// Plays a turn through the colours, given the colour before.
pub fn do_rainbow(b: &Backend, prev: (u8, u8, u8)) -> (r: Vec<Action>)
    requires
        b.wf(),
    ensures
        deeds(r@) == rainbow_deeds(*b, prev),
{
    let pause: u64 = EFFECT_DURATION_MS / EFFECT_STEPS as u64;
    let mut actions: Vec<Action> = Vec::new();
    let mut i: u32 = 0;
    assert(deeds(actions@) =~= seq![]);
    while i < EFFECT_STEPS
        invariant
            i <= EFFECT_STEPS,
            b.wf(),
            pause == rainbow_pause(),
            deeds(actions@) == frames(*b, rainbow_frame(), rainbow_pause(), i as nat),
        decreases EFFECT_STEPS - i,
    {
        let c = rainbow_rgb(i, EFFECT_STEPS);
        assert(rainbow_frame()(i) == c);
        let ghost before = deeds(actions@);
        push_show(&mut actions, b, c);
        push_sleep(&mut actions, pause);
        assert(deeds(actions@) =~= before + show(*b, c) + seq![Deed::Sleep(pause)]);
        i += 1;
    }
    push_show(&mut actions, b, prev);
    actions
}

/// Plays a pulse of the colour before.
pub fn do_pulse(b: &Backend, prev: (u8, u8, u8)) -> (r: Vec<Action>)
    requires
        b.wf(),
    ensures
        deeds(r@) == pulse_deeds(*b, prev),
{
    let pause: u64 = PULSE_DURATION_MS / EFFECT_STEPS as u64;
    let mut actions: Vec<Action> = Vec::new();
    let mut i: u32 = 0;
    assert(deeds(actions@) =~= seq![]);
    while i < EFFECT_STEPS
        invariant
            i <= EFFECT_STEPS,
            b.wf(),
            pause == pulse_pause(),
            deeds(actions@) == frames(*b, pulse_frame(prev), pulse_pause(), i as nat),
        decreases EFFECT_STEPS - i,
    {
        let c = pulse_rgb(prev, i, EFFECT_STEPS);
        assert(pulse_frame(prev)(i) == c);
        let ghost before = deeds(actions@);
        push_show(&mut actions, b, c);
        push_sleep(&mut actions, pause);
        assert(deeds(actions@) =~= before + show(*b, c) + seq![Deed::Sleep(pause)]);
        i += 1;
    }
    push_show(&mut actions, b, prev);
    actions
}

/// The steps that have the LEDs show something, given the contents of the system's
/// configuration and the colour before.
pub open spec fn color_deeds(
    b: Backend,
    c: LedColor,
    content: Option<Seq<char>>,
    prev: (u8, u8, u8),
) -> Seq<Deed> {
    match c {
        LedColor::Hex(x, y, z) => show(b, (x, y, z)),
        LedColor::Pulse => pulse_deeds(b, prev),
        LedColor::Rainbow => rainbow_deeds(b, prev),
        LedColor::Off => show(b, (0, 0, 0)),
        LedColor::EsColor => show(b, conf::es_color(content)),
    }
}

/// Has the LEDs show something. `content` is what the system's configuration file holds,
/// and `prev` the colour before; the first counts only for the colour of the front end,
/// the second only for the effects.
pub fn apply_color(b: &Backend, c: &LedColor, content: Option<&str>, prev: (u8, u8, u8)) -> (r: Vec<
    Action,
>)
    requires
        b.wf(),
    ensures
        deeds(r@) == color_deeds(*b, *c, text::optional_view(content), prev),
        *c matches LedColor::Hex(x, y, z) ==> deeds(r@) == write_deeds(b.color_writes(x, y, z)),
        *c is Off ==> deeds(r@) == write_deeds(b.color_writes(0, 0, 0)),
        *c is EsColor ==> ({
            let (x, y, z) = conf::es_color(text::optional_view(content));
            deeds(r@) == write_deeds(b.color_writes(x, y, z))
        }),
        *c is Pulse ==> deeds(r@) == pulse_deeds(*b, prev),
        *c is Rainbow ==> deeds(r@) == rainbow_deeds(*b, prev),
{
    let mut actions: Vec<Action> = Vec::new();
    assert(deeds(actions@) =~= seq![]);
    match *c {
        LedColor::Hex(x, y, z) => {
            push_show(&mut actions, b, (x, y, z));
            assert(deeds(actions@) =~= show(*b, (x, y, z)));
            actions
        },
        LedColor::Pulse => do_pulse(b, prev),
        LedColor::Rainbow => do_rainbow(b, prev),
        LedColor::Off => {
            push_show(&mut actions, b, (0, 0, 0));
            assert(deeds(actions@) =~= show(*b, (0, 0, 0)));
            actions
        },
        LedColor::EsColor => {
            let color = conf::resolve_es_color(content);
            push_show(&mut actions, b, color);
            assert(deeds(actions@) =~= show(*b, color));
            actions
        },
    }
}

// ---------------------------------------------------------------------------
// Laws on effects
// ---------------------------------------------------------------------------

/// What files hold after steps, all of whose writes succeed.
pub open spec fn after_deeds(files: Map<Seq<char>, Seq<char>>, steps: Seq<Deed>) -> Map<
    Seq<char>,
    Seq<char>,
>
    decreases steps.len(),
{
    if steps.len() == 0 {
        files
    } else {
        let before = after_deeds(files, steps.drop_last());
        match steps.last() {
            Deed::Write(w) => before.insert(w.path, w.text),
            Deed::Sleep(_) => before,
        }
    }
}

/// How long the pauses of steps are together.
pub open spec fn slept(steps: Seq<Deed>) -> nat
    decreases steps.len(),
{
    if steps.len() == 0 {
        0
    } else {
        slept(steps.drop_last()) + (match steps.last() {
            Deed::Write(_) => 0,
            Deed::Sleep(ms) => ms as nat,
        })
    }
}

/// Whatever files held before, and whatever was written first, a file that the last
/// writes are made to holds what they write.
proof fn lemma_last_writes(
    files: Map<Seq<char>, Seq<char>>,
    first: Seq<Deed>,
    writes: Seq<backend::Written>,
    path: Seq<char>,
)
    ensures
        apply::after_writes(Map::empty(), writes).dom().contains(path) ==> after_deeds(
            files,
            first + write_deeds(writes),
        ).dom().contains(path) && after_deeds(files, first + write_deeds(writes))[path]
            == apply::after_writes(Map::empty(), writes)[path],
    decreases writes.len(),
{
    if writes.len() > 0 {
        let rest = writes.drop_last();
        let steps = first + write_deeds(writes);
        assert(steps.drop_last() =~= first + write_deeds(rest));
        assert(steps.last() == Deed::Write(writes.last()));
        lemma_last_writes(files, first, rest, path);
    }
}

/// Once a turn through the colours or a pulse is over, every file that holds the colour
/// holds the one before the effect again.
pub proof fn law_effects_restore_color(
    b: Backend,
    prev: (u8, u8, u8),
    files: Map<Seq<char>, Seq<char>>,
    path: Seq<char>,
)
    requires
        apply::after_writes(Map::empty(), b.color_writes(prev.0, prev.1, prev.2)).dom().contains(
            path,
        ),
    ensures
        ({
            let shown = apply::after_writes(
                Map::empty(),
                b.color_writes(prev.0, prev.1, prev.2),
            );
            &&& after_deeds(files, rainbow_deeds(b, prev)).dom().contains(path)
            &&& after_deeds(files, rainbow_deeds(b, prev))[path] == shown[path]
            &&& after_deeds(files, pulse_deeds(b, prev)).dom().contains(path)
            &&& after_deeds(files, pulse_deeds(b, prev))[path] == shown[path]
        }),
{
    let writes = b.color_writes(prev.0, prev.1, prev.2);
    lemma_last_writes(
        files,
        frames(b, rainbow_frame(), rainbow_pause(), EFFECT_STEPS as nat),
        writes,
        path,
    );
    lemma_last_writes(
        files,
        frames(b, pulse_frame(prev), pulse_pause(), EFFECT_STEPS as nat),
        writes,
        path,
    );
}

proof fn lemma_slept_add(a: Seq<Deed>, b: Seq<Deed>)
    ensures
        slept(a + b) == slept(a) + slept(b),
    decreases b.len(),
{
    if b.len() == 0 {
        assert(a + b =~= a);
    } else {
        assert((a + b).drop_last() =~= a + b.drop_last());
        lemma_slept_add(a, b.drop_last());
    }
}

proof fn lemma_slept_show(writes: Seq<backend::Written>)
    ensures
        slept(write_deeds(writes)) == 0,
    decreases writes.len(),
{
    if writes.len() > 0 {
        assert(write_deeds(writes).drop_last() =~= write_deeds(writes.drop_last()));
        lemma_slept_show(writes.drop_last());
    }
}

proof fn lemma_slept_frames(
    b: Backend,
    frame: spec_fn(u32) -> (u8, u8, u8),
    pause: u64,
    n: nat,
)
    ensures
        slept(frames(b, frame, pause, n)) == n * pause,
    decreases n,
{
    if n > 0 {
        let before = frames(b, frame, pause, (n - 1) as nat);
        let c = frame((n - 1) as u32);
        let last = seq![Deed::Sleep(pause)];
        lemma_slept_frames(b, frame, pause, (n - 1) as nat);
        lemma_slept_show(b.color_writes(c.0, c.1, c.2));
        lemma_slept_add(before + show(b, c), last);
        lemma_slept_add(before, show(b, c));
        assert(last.drop_last() =~= seq![]);
        assert(slept(last.drop_last()) == 0);
        assert(slept(last) == pause);
        assert(n * pause == (n - 1) * pause + pause) by (nonlinear_arith);
        assert(slept(frames(b, frame, pause, n)) == slept(before) + pause);
    } else {
        assert(0 * pause == 0);
    }
}

/// The pauses of an effect take as long as its duration, but for what is lost when the
/// duration is divided among the frames.
pub proof fn law_effect_durations(b: Backend, prev: (u8, u8, u8))
    ensures
        slept(rainbow_deeds(b, prev)) <= EFFECT_DURATION_MS < slept(rainbow_deeds(b, prev))
            + EFFECT_STEPS,
        slept(pulse_deeds(b, prev)) <= PULSE_DURATION_MS < slept(pulse_deeds(b, prev))
            + EFFECT_STEPS,
{
    let n = EFFECT_STEPS as nat;
    assert(rainbow_pause() == 33) by (nonlinear_arith)
        requires
            rainbow_pause() == 2000u64 / 60u64,
    ;
    assert(pulse_pause() == 16) by (nonlinear_arith)
        requires
            pulse_pause() == 1000u64 / 60u64,
    ;
    lemma_slept_frames(b, rainbow_frame(), rainbow_pause(), n);
    lemma_slept_frames(b, pulse_frame(prev), pulse_pause(), n);
    lemma_slept_show(b.color_writes(prev.0, prev.1, prev.2));
    lemma_slept_add(frames(b, rainbow_frame(), rainbow_pause(), n), show(b, prev));
    lemma_slept_add(frames(b, pulse_frame(prev), pulse_pause(), n), show(b, prev));
}

// ---------------------------------------------------------------------------
// Laws on frames
// ---------------------------------------------------------------------------

/// How many writes it takes to set a colour does not depend on the colour.
proof fn lemma_write_count(b: Backend, c: (u8, u8, u8), d: (u8, u8, u8))
    ensures
        b.color_writes(c.0, c.1, c.2).len() == b.color_writes(d.0, d.1, d.2).len(),
{
    match b {
        Backend::Rgb(_) => {},
        Backend::Pwm(pwm) => {
            lemma_pwm_count(pwm.chips@, pwm.period, c);
            lemma_pwm_count(pwm.chips@, pwm.period, d);
        },
        Backend::Individual(ind) => {
            lemma_led_count(ind.leds@, c);
            lemma_led_count(ind.leds@, d);
        },
    }
}

proof fn lemma_pwm_count(chips: Seq<String>, period: u32, c: (u8, u8, u8))
    ensures
        backend::pwm_writes(chips, period, c.0, c.1, c.2).len() == 12 * chips.len(),
    decreases chips.len(),
{
    if chips.len() > 0 {
        lemma_pwm_count(chips.drop_last(), period, c);
    }
}

proof fn lemma_led_count(leds: Seq<LedChannels>, c: (u8, u8, u8))
    ensures
        backend::all_channels_plan(leds, c.0, c.1, c.2).len() == 3 * leds.len(),
    decreases leds.len(),
{
    if leds.len() > 0 {
        lemma_led_count(leds.drop_last(), c);
    }
}

/// Where a frame stands among the steps of an effect.
proof fn lemma_frame_at(
    b: Backend,
    frame: spec_fn(u32) -> (u8, u8, u8),
    pause: u64,
    n: nat,
    i: int,
    k: int,
)
    requires
        n <= 60,
        0 <= i < n,
        k == b.color_writes(0, 0, 0).len(),
    ensures
        ({
            let steps = frames(b, frame, pause, n);
            let c = frame(i as u32);
            &&& steps.len() == n * (k + 1)
            &&& 0 <= i * (k + 1)
            &&& i * (k + 1) + k < steps.len()
            &&& steps.subrange(i * (k + 1), i * (k + 1) + k) == write_deeds(
                b.color_writes(c.0, c.1, c.2),
            )
            &&& steps[i * (k + 1) + k] == Deed::Sleep(pause)
        }),
    decreases n,
{
    let m = (n - 1) as nat;
    let before = frames(b, frame, pause, m);
    let last = frame(m as u32);
    let shown = show(b, last);
    let steps = frames(b, frame, pause, n);
    lemma_write_count(b, last, (0, 0, 0));
    assert(shown.len() == k);
    assert(n * (k + 1) == m * (k + 1) + (k + 1)) by (nonlinear_arith)
        requires
            n == m + 1,
    ;
    assert(i * (k + 1) >= 0) by (nonlinear_arith)
        requires
            i >= 0,
            k >= 0,
    ;
    if m == 0 {
        assert(0 * (k + 1) == 0);
        assert(before.len() == 0);
    } else if i < m {
        lemma_frame_at(b, frame, pause, m, i, k);
    } else {
        lemma_frame_at(b, frame, pause, m, 0, k);
    }
    assert(before.len() == m * (k + 1));
    if i == m {
        assert(steps.subrange(i * (k + 1), i * (k + 1) + k) =~= shown);
    } else {
        assert(steps.subrange(i * (k + 1), i * (k + 1) + k) =~= before.subrange(
            i * (k + 1),
            i * (k + 1) + k,
        ));
        assert(steps[i * (k + 1) + k] == before[i * (k + 1) + k]);
    }
}

/// Whether steps are those of an effect with sixty frames: for each frame the writes that
/// show its colour and then a pause, and at the end the writes that show the last colour.
pub open spec fn is_effect(
    b: Backend,
    actions: Seq<Action>,
    i: int,
    c: (u8, u8, u8),
    pause: u64,
    end: (u8, u8, u8),
) -> bool {
    let k = b.color_writes(c.0, c.1, c.2).len() as int;
    &&& actions.len() == 60 * (k + 1) + k
    &&& forall|j: int|
        0 <= j < k ==> (#[trigger] actions[i * (k + 1) + j] matches Action::Write(w) && w@
            == b.color_writes(c.0, c.1, c.2)[j])
    &&& actions[i * (k + 1) + k] == Action::Sleep(pause)
    &&& forall|j: int|
        0 <= j < k ==> (#[trigger] actions[60 * (k + 1) + j] matches Action::Write(w) && w@
            == b.color_writes(end.0, end.1, end.2)[j])
}

proof fn lemma_is_effect(
    b: Backend,
    actions: Seq<Action>,
    frame: spec_fn(u32) -> (u8, u8, u8),
    pause: u64,
    i: int,
    end: (u8, u8, u8),
)
    requires
        0 <= i < 60,
        deeds(actions) == frames(b, frame, pause, 60) + show(b, end),
    ensures
        is_effect(b, actions, i, frame(i as u32), pause, end),
{
    let c = frame(i as u32);
    let k = b.color_writes(c.0, c.1, c.2).len() as int;
    let steps = deeds(actions);
    let body = frames(b, frame, pause, 60);
    lemma_write_count(b, c, (0, 0, 0));
    lemma_write_count(b, end, (0, 0, 0));
    lemma_frame_at(b, frame, pause, 60, i, k);
    assert(steps.len() == actions.len());
    let at = i * (k + 1);
    let writes = b.color_writes(c.0, c.1, c.2);
    assert forall|j: int| 0 <= j < k implies (#[trigger] actions[at + j] matches Action::Write(w)
        && w@ == writes[j]) by {
        assert(steps[at + j] == actions[at + j]@);
        assert(steps[at + j] == body[at + j]);
        assert(body.subrange(at, at + k)[j] == body[at + j]);
        assert(write_deeds(writes)[j] == Deed::Write(writes[j]));
    }
    assert(steps[at + k] == actions[at + k]@);
    assert(steps[at + k] == body[at + k]);
    let last = b.color_writes(end.0, end.1, end.2);
    assert forall|j: int| 0 <= j < k implies (#[trigger] actions[60 * (k + 1) + j]
        matches Action::Write(w) && w@ == last[j]) by {
        assert(steps[60 * (k + 1) + j] == actions[60 * (k + 1) + j]@);
        assert(steps[60 * (k + 1) + j] == show(b, end)[j]);
    }
}

/// The sixty frames of a rainbow go round the colour circle, six degrees each: frame `i`
/// writes the colour at step `i` of sixty, a pause of 33 milliseconds follows, and behind the
/// last frame the colour before is written.
pub proof fn law_rainbow_shows_its_frames(
    b: Backend,
    prev: (u8, u8, u8),
    actions: Seq<Action>,
    i: int,
)
    requires
        deeds(actions) == rainbow_deeds(b, prev),
        0 <= i < 60,
    ensures
        is_effect(b, actions, i, rainbow_color(i as u32, 60), 33, prev),
{
    assert(rainbow_pause() == 33) by (nonlinear_arith)
        requires
            rainbow_pause() == 2000u64 / 60u64,
    ;
    lemma_is_effect(b, actions, rainbow_frame(), 33, i, prev);
}

/// The sixty frames of a pulse let the colour before fade out and in again: frame `i` writes
/// that colour at step `i` of sixty, a pause of 16 milliseconds follows, and behind the last
/// frame the colour itself is written.
pub proof fn law_pulse_shows_its_frames(
    b: Backend,
    prev: (u8, u8, u8),
    actions: Seq<Action>,
    i: int,
)
    requires
        deeds(actions) == pulse_deeds(b, prev),
        0 <= i < 60,
    ensures
        is_effect(b, actions, i, pulsed_color(prev, i as u32, 60), 16, prev),
{
    assert(pulse_pause() == 16) by (nonlinear_arith)
        requires
            pulse_pause() == 1000u64 / 60u64,
    ;
    lemma_is_effect(b, actions, pulse_frame(prev), 16, i, prev);
}

/// The components of a colour pulse alike, and each of them without regard to the others.
pub proof fn law_components_pulse_alike(
    c: (u8, u8, u8),
    step: u32,
    total_steps: u32,
    x: u8,
    y: u8,
)
    ensures
        pulsed_color(c, step, total_steps).0 == pulsed_color((c.0, x, y), step, total_steps).0,
        pulsed_color(c, step, total_steps).1 == pulsed_color((c.1, x, y), step, total_steps).0,
        pulsed_color(c, step, total_steps).2 == pulsed_color((c.2, x, y), step, total_steps).0,
{
}

// ---------------------------------------------------------------------------
// The colours of the circle
// ---------------------------------------------------------------------------

/// A component is dark where it begins to rise.
proof fn lemma_at_start(angle: binary64::Dyadic, start: nat)
    requires
        angle.mant == start * pow2(angle.exp),
    ensures
        component_at(angle, start) == 0,
{
    lemma2_to64();
    lemma_pow2_pos(angle.exp);
    lemma_exact(0, angle.exp);
    lemma_quotient_of_zero(60);
    let d = distance(angle, start);
    assert(d == (binary64::Dyadic { mant: 0, exp: angle.exp }));
    assert(60 * pow2(d.exp) > 0);
    assert(d.over(60).mant == 0);
    assert(0nat * 255 == 0);
    lemma_exact(0, d.over(60).exp);
    binary64::lemma_whole(d.over(60).times(255), 0);
    assert(0 * pow2(d.over(60).times(255).exp) == 0);
}

/// A sixth of a turn is sixty degrees, without any error.
proof fn lemma_sixths(k: nat)
    requires
        1 <= k <= 5,
    ensures
        ({
            let angle = binary64::quotient_of(k, 6).times(360);
            &&& angle.mant == 60 * k * pow2(angle.exp)
            &&& angle.wf()
            &&& angle.exp >= 11
        }),
{
    lemma2_to64();
    lemma2_to64_rest();
    if k == 1 {
        binary64::lemma_doublings_are(1, 6, 55);
    } else if k == 2 {
        binary64::lemma_doublings_are(2, 6, 54);
    } else if k == 3 {
        binary64::lemma_doublings_are(3, 6, 53);
    } else if k == 4 {
        binary64::lemma_doublings_are(4, 6, 53);
    } else {
        binary64::lemma_doublings_are(5, 6, 53);
    }
    let q = binary64::quotient_of(k, 6);
    if k == 1 || k == 2 || k == 4 {
        assert(q.mant == 6004799503160661);
        assert(binary64::excess(2161727821137837960) == 8) by {
            reveal_with_fuel(binary64::excess, 10);
        }
        assert(binary64::nearest(2161727821137837960, 256) == 8444249301319680);
    } else if k == 3 {
        assert(q.mant == 4503599627370496);
        assert(binary64::excess(1621295865853378560) == 8) by {
            reveal_with_fuel(binary64::excess, 10);
        }
        assert(binary64::nearest(1621295865853378560, 256) == 6333186975989760);
    } else {
        assert(q.mant == 7505999378950827);
        assert(binary64::excess(2702159776422297720) == 9) by {
            reveal_with_fuel(binary64::excess, 11);
        }
        assert(binary64::nearest(2702159776422297720, 512) == 5277655813324800);
    }
    let angle = q.times(360);
    if k == 1 {
        assert(angle.exp == 47);
        assert(60 * k * pow2(47) == 60 * pow2(47));
    } else if k == 2 {
        assert(angle.exp == 46);
        assert(60 * k * pow2(46) == 120 * pow2(46));
    } else if k == 3 {
        assert(angle.exp == 45);
        assert(60 * k * pow2(45) == 180 * pow2(45));
    } else if k == 4 {
        assert(angle.exp == 45);
        assert(60 * k * pow2(45) == 240 * pow2(45));
    } else {
        assert(angle.exp == 44);
        assert(60 * k * pow2(44) == 300 * pow2(44));
    }
}

/// A turn through the colours passes green, cyan, blue, magenta, red and yellow at its
/// sixths, and ends with green again.
pub proof fn law_rainbow_passes_its_colors(step: u32, total_steps: u32, k: nat)
    requires
        total_steps > 0,
        k <= 6,
        6 * step == k * total_steps,
    ensures
        k == 0 ==> rainbow_color(step, total_steps) == (0u8, 255u8, 0u8),
        k == 1 ==> rainbow_color(step, total_steps) == (0u8, 255u8, 255u8),
        k == 2 ==> rainbow_color(step, total_steps) == (0u8, 0u8, 255u8),
        k == 3 ==> rainbow_color(step, total_steps) == (255u8, 0u8, 255u8),
        k == 4 ==> rainbow_color(step, total_steps) == (255u8, 0u8, 0u8),
        k == 5 ==> rainbow_color(step, total_steps) == (255u8, 255u8, 0u8),
        k == 6 ==> rainbow_color(step, total_steps) == (0u8, 255u8, 0u8),
{
    let angle = angle_at(step, total_steps);
    if k == 0 || k == 6 {
        assert(step == 0 || step == total_steps) by (nonlinear_arith)
            requires
                6 * step == k * total_steps,
                k == 0 || k == 6,
        ;
        lemma_green(total_steps);
    } else {
        assert(step <= total_steps) by (nonlinear_arith)
            requires
                6 * step == k * total_steps,
                k <= 6,
        ;
        lemma_angle(step, total_steps);
        assert(step as nat * 6 == k * total_steps as nat) by (nonlinear_arith)
            requires
                6 * step == k * total_steps,
        ;
        binary64::lemma_quotient_of_same(step as nat, total_steps as nat, k, 6);
        lemma_sixths(k);
        let p = pow2(angle.exp);
        lemma_pow2_pos(angle.exp);
        if k == 1 {
            assert(angle.mant == 60 * p);
            lemma_dark(angle, 120);
            lemma_full(angle, 240);
            lemma_full(angle, 0);
        } else if k == 2 {
            assert(angle.mant == 120 * p);
            lemma_at_start(angle, 120);
            lemma_dark(angle, 240);
            lemma_full(angle, 0);
        } else if k == 3 {
            assert(angle.mant == 180 * p);
            lemma_full(angle, 120);
            lemma_dark(angle, 240);
            lemma_full(angle, 0);
        } else if k == 4 {
            assert(angle.mant == 240 * p);
            lemma_full(angle, 120);
            lemma_at_start(angle, 240);
            lemma_dark(angle, 0);
        } else {
            assert(angle.mant == 300 * p);
            lemma_full(angle, 120);
            lemma_full(angle, 240);
            lemma_dark(angle, 0);
        }
    }
}

/// The circle begins and ends with green.
proof fn lemma_green(total_steps: u32)
    requires
        total_steps > 0,
    ensures
        rainbow_color(0, total_steps) == (0u8, 255u8, 0u8),
        rainbow_color(total_steps, total_steps) == (0u8, 255u8, 0u8),
{
    law_rainbow_closes(total_steps);
    let start = angle_at(0, total_steps);
    lemma2_to64();
    lemma_angle(0, total_steps);
    lemma_quotient_of_zero(total_steps as nat);
    lemma_exact(0, 0);
    lemma_dark(start, 120);
    lemma_full(start, 240);
    assert(0 * pow2(start.exp) == 0);
    lemma_at_start(start, 0);
}

// ---------------------------------------------------------------------------
// The size of a pulse
// ---------------------------------------------------------------------------

/// How far the factor of a pulse is from the fraction that it stands for.
proof fn lemma_factor_error(step: u32, total_steps: u32)
    requires
        step <= total_steps,
        total_steps > 0,
    ensures
        ({
            let f = factor_at(step, total_steps);
            let t = total_steps as int;
            let k: int = if 2 * step < total_steps {
                total_steps - 2 * step
            } else {
                2 * step - total_steps
            };
            &&& f.mant * t - k * pow2(f.exp) <= t
            &&& k * pow2(f.exp) - f.mant * t <= t
            &&& f.exp >= 52 || f.mant * t == k * pow2(f.exp)
        }),
{
    lemma2_to64();
    let t = total_steps as nat;
    let f = factor_at(step, total_steps);
    if 2 * step < total_steps {
        let n = (2 * step) as nat;
        let q = binary64::quotient_of(n, t);
        let e = pow2(q.exp);
        let k = (t - n) as nat;
        let m = (e - q.mant) as nat;
        lemma_factor(step, total_steps);
        if n == 0 {
            lemma_quotient_of_zero(t);
            lemma_exact(1, 0);
            assert(f == (binary64::Dyadic { mant: 1, exp: 0 }));
        } else {
            binary64::lemma_nearest(n * e, t, 0);
            binary64::lemma_doublings_least(n, t, 0);
            binary64::lemma_rounded_places(m, q.exp, 0);
            let j = binary64::excess(m);
            let g = pow2(j);
            lemma_pow2_pos(j);
            binary64::lemma_nearest(m, g, 0);
            lemma_pow2_adds(f.exp, j);
            let p = pow2(f.exp);
            assert(e == p * g);
            let a = f.mant;
            let mt = m * t;
            let ke = k * e;
            assert(2 * mt - 2 * ke <= t && 2 * ke - 2 * mt <= t) by (nonlinear_arith)
                requires
                    mt == m * t,
                    ke == k * e,
                    m == e - q.mant,
                    k == t - n,
                    2 * q.mant * t <= 2 * (n * e) + t,
                    2 * q.mant * t + t >= 2 * (n * e),
            ;
            let x = a * t - k * p;
            assert(x * g == (a * g) * t - ke) by (nonlinear_arith)
                requires
                    x == a * t - k * p,
                    ke == k * e,
                    e == p * g,
            ;
            assert(2 * ((a * g) * t) - 2 * mt <= g * t && 2 * mt - 2 * ((a * g) * t) <= g * t)
                by (nonlinear_arith)
                requires
                    mt == m * t,
                    2 * a * g <= 2 * m + g,
                    2 * a * g + g >= 2 * m,
            ;
            assert(g * t >= t) by (nonlinear_arith)
                requires
                    g >= 1,
            ;
            assert(2 * (x * g) <= 2 * (g * t) && 2 * (x * g) >= -2 * (g * t));
            assert(x <= t && x >= -(t as int)) by (nonlinear_arith)
                requires
                    2 * (x * g) <= 2 * (g * t),
                    2 * (x * g) >= -2 * (g * t),
                    g >= 1,
            ;
        }
    } else {
        let n = (2 * step - total_steps) as nat;
        let p = pow2(f.exp);
        binary64::lemma_nearest(n * p, t, 0);
        assert(2 * f.mant * t == 2 * (f.mant * t)) by (nonlinear_arith);
        if n == 0 {
            lemma_quotient_of_zero(t);
            assert(0 * t == 0);
            assert(0 * p == 0);
        } else {
            binary64::lemma_doublings_least(n, t, 0);
        }
    }
}

/// A component at a step of a pulse is the whole part of the fraction of it that the step
/// stands for: at step `s` of `t` that is `(t - 2 * s) / t`, or `(2 * s - t) / t` in the
/// second half. Where there is nothing to cut off, it may be one less.
pub proof fn law_pulse_is_proportional(c: u8, step: u32, total_steps: u32)
    requires
        step <= total_steps,
        total_steps > 0,
    ensures
        ({
            let t = total_steps as int;
            let k: int = if 2 * step < total_steps {
                total_steps - 2 * step
            } else {
                2 * step - total_steps
            };
            t * pulsed(c, step, total_steps) <= c * k <= t * (pulsed(c, step, total_steps) + 1)
        }),
{
    let f = factor_at(step, total_steps);
    let t = total_steps as nat;
    let k: nat = (if 2 * step < total_steps {
        total_steps - 2 * step
    } else {
        2 * step - total_steps
    }) as nat;
    let p = pow2(f.exp);
    lemma_factor(step, total_steps);
    lemma_factor_error(step, total_steps);
    law_pulse_dims(c, step, total_steps);
    lemma2_to64();
    lemma2_to64_rest();
    let x = f.mant * c as nat;
    binary64::lemma_product(f.mant, c as nat);
    let r = f.times(c as nat);
    let n = c * k;
    let w = r.whole();
    // The whole part is below 256, so that it is not cut down.
    assert(x <= c * p) by (nonlinear_arith)
        requires
            x == f.mant * c,
            f.mant <= p,
    ;
    binary64::lemma_rounded(x, f.exp, c as nat);
    binary64::lemma_whole(r, c as nat);
    assert(w <= c);
    assert(pulsed(c, step, total_steps) == w);
    let q = (n / t as int) as nat;
    let rem = n % t as int;
    vstd::arithmetic::div_mod::lemma_fundamental_div_mod(n as int, t as int);
    assert(n == q * t + rem) by (nonlinear_arith)
        requires
            n == t * q + rem,
    ;
    if f.exp >= 52 {
        if f.exp > 52 {
            lemma_pow2_strictly_increases(52, f.exp);
        }
        let j = binary64::excess(x);
        let g = pow2(j);
        lemma_pow2_pos(j);
        if j < 9 {
            lemma_pow2_strictly_increases(j, 9);
        }
        lemma_pow2_adds(r.exp, j);
        let h = pow2(r.exp);
        lemma_pow2_pos(r.exp);
        assert(p == h * g);
        binary64::lemma_nearest(x, g, 0);
        let y = r.mant * g;
        assert(2 * r.mant * g == 2 * y) by (nonlinear_arith)
            requires
                y == r.mant * g,
        ;
        // y differs from x by at most 256, and x * t from n * p by at most 255 * t.
        let np = n * p;
        assert(x * t - np <= 255 * t && np - x * t <= 255 * t) by (nonlinear_arith)
            requires
                x == f.mant * c,
                np == n * p,
                n == c * k,
                f.mant * t - k * p <= t,
                k * p - f.mant * t <= t,
                c <= 255,
        ;
        let yt = y * t;
        assert(yt - x * t <= 256 * t && x * t - yt <= 256 * t) by (nonlinear_arith)
            requires
                yt == y * t,
                2 * y <= 2 * x + 512,
                2 * y + 512 >= 2 * x,
        ;
        let qtp = q * t * p;
        let tp = t * p;
        assert(np == qtp + rem * p) by (nonlinear_arith)
            requires
                np == n * p,
                n == q * t + rem,
                qtp == q * t * p,
        ;
        assert(rem * p <= tp - p) by (nonlinear_arith)
            requires
                rem <= t - 1,
                tp == t * p,
                p >= 0,
        ;
        assert(p > 511 * t);
        assert(yt < qtp + tp);
        assert(r.mant < (q + 1) * h) by (nonlinear_arith)
            requires
                y == r.mant * g,
                yt == y * t,
                qtp == q * t * p,
                tp == t * p,
                p == h * g,
                yt < qtp + tp,
                g > 0,
                t > 0,
        ;
        binary64::lemma_whole(r, q + 1);
        assert(w <= q);
        if rem == 0 {
            assert(rem * p == 0);
            assert(tp >= p) by (nonlinear_arith)
                requires
                    tp == t * p,
                    t >= 1,
                    p >= 0,
            ;
            if q >= 1 {
                let l = (q - 1) as nat;
                assert(yt >= qtp - tp);
                assert(r.mant >= l * h) by (nonlinear_arith)
                    requires
                        y == r.mant * g,
                        yt == y * t,
                        qtp == q * t * p,
                        tp == t * p,
                        p == h * g,
                        yt >= qtp - tp,
                        l == q - 1,
                        g > 0,
                        t > 0,
                ;
                binary64::lemma_whole(r, l);
            }
            assert(n <= t * (w + 1)) by (nonlinear_arith)
                requires
                    n == q * t + rem,
                    rem == 0,
                    q <= w + 1,
            ;
        } else {
            assert(rem * p >= p) by (nonlinear_arith)
                requires
                    rem >= 1,
                    p >= 0,
            ;
            assert(yt >= qtp);
            assert(r.mant >= q * h) by (nonlinear_arith)
                requires
                    y == r.mant * g,
                    yt == y * t,
                    qtp == q * t * p,
                    p == h * g,
                    yt >= qtp,
                    g > 0,
                    t > 0,
            ;
            binary64::lemma_whole(r, q);
            assert(n <= t * (w + 1)) by (nonlinear_arith)
                requires
                    n == q * t + rem,
                    rem < t,
                    q <= w,
            ;
        }
        assert(t * w <= n) by (nonlinear_arith)
            requires
                n == q * t + rem,
                rem >= 0,
                w <= q,
        ;
    } else {
        lemma_exact_pulse(c, step, total_steps);
        assert(t * (w + 1) == t * w + t) by (nonlinear_arith);
    }
}

/// At the ends of a pulse and in its middle nothing is rounded.
proof fn lemma_exact_pulse(c: u8, step: u32, total_steps: u32)
    requires
        step <= total_steps,
        total_steps > 0,
        factor_at(step, total_steps).exp < 52,
    ensures
        ({
            let t = total_steps as int;
            let k: int = if 2 * step < total_steps {
                total_steps - 2 * step
            } else {
                2 * step - total_steps
            };
            t * pulsed(c, step, total_steps) == c * k
        }),
{
    lemma2_to64();
    let t = total_steps as nat;
    if 2 * step < total_steps {
        let n = (2 * step) as nat;
        let q = binary64::quotient_of(n, t);
        if n > 0 {
            lemma_factor(step, total_steps);
            binary64::lemma_doublings_least(n, t, 0);
            binary64::lemma_rounded_places((pow2(q.exp) - q.mant) as nat, q.exp, 0);
        }
        law_pulse_begins_full(c, total_steps);
        assert(t * c == c * (t - 2 * step)) by (nonlinear_arith)
            requires
                step == 0,
        ;
    } else {
        let n = (2 * step - total_steps) as nat;
        if n > 0 {
            binary64::lemma_doublings_least(n, t, 0);
        }
        law_pulse_is_dark_half_way(c, step, total_steps);
        assert(t * 0 == 0);
        assert(c * 0 == 0);
    }
}

// ---------------------------------------------------------------------------
// The colour circle
// ---------------------------------------------------------------------------

/// Whether a number differs from `n / t` by at most `k` units of the 44th binary place.
spec fn near(x: binary64::Dyadic, n: int, t: int, k: int) -> bool {
    &&& 0x1000_0000_0000 * (x.mant * t - n * pow2(x.exp)) <= k * (t * pow2(x.exp))
    &&& 0x1000_0000_0000 * (n * pow2(x.exp) - x.mant * t) <= k * (t * pow2(x.exp))
}

/// Rounding adds at most two units.
proof fn lemma_near_rounded(m: nat, e: nat, n: int, t: int, k: int)
    requires
        near(binary64::Dyadic { mant: m, exp: e }, n, t, k),
        t > 0,
        binary64::excess(m) <= e,
        binary64::rounded(m, e).exp >= 42,
    ensures
        near(binary64::rounded(m, e), n, t, k + 2),
{
    let r = binary64::rounded(m, e);
    let j = binary64::excess(m);
    let g = pow2(j) as int;
    let p = pow2(r.exp) as int;
    let q = pow2(e) as int;
    lemma_pow2_pos(j);
    lemma_pow2_adds(r.exp, j);
    lemma2_to64_rest();
    if r.exp > 42 {
        lemma_pow2_strictly_increases(42, r.exp);
    }
    assert(q == p * g);
    binary64::lemma_nearest(m, pow2(j), 0);
    let y = r.mant as int;
    let a = y * g;
    assert(2 * y * g == 2 * a) by (nonlinear_arith)
        requires
            a == y * g,
    ;
    let nq = n * q;
    let u = a * t - nq;
    let v = m * t - nq;
    let gt = g * t;
    assert(2 * u <= 2 * v + gt && 2 * u >= 2 * v - gt) by (nonlinear_arith)
        requires
            u == a * t - nq,
            v == m * t - nq,
            gt == g * t,
            2 * a <= 2 * m + g,
            2 * a + g >= 2 * m,
            t > 0,
    ;
    let s = t * q;
    assert(0x400_0000_0000 * gt <= s) by (nonlinear_arith)
        requires
            gt == g * t,
            s == t * q,
            q == p * g,
            p >= 0x400_0000_0000,
            g > 0,
            t > 0,
    ;
    assert((k + 2) * s == k * s + 2 * s) by (nonlinear_arith);
    let x = y * t - n * p;
    let z = t * p;
    assert(u == x * g && s == z * g) by (nonlinear_arith)
        requires
            u == a * t - nq,
            a == y * g,
            nq == n * q,
            q == p * g,
            x == y * t - n * p,
            s == t * q,
            z == t * p,
    ;
    assert(0x1000_0000_0000 * u <= (k + 2) * s && 0x1000_0000_0000 * u >= -((k + 2) * s));
    assert(0x1000_0000_0000 * x <= (k + 2) * z && 0x1000_0000_0000 * x >= -((k + 2) * z))
        by (nonlinear_arith)
        requires
            u == x * g,
            s == z * g,
            g > 0,
            0x1000_0000_0000 * u <= (k + 2) * s,
            0x1000_0000_0000 * u >= -((k + 2) * s),
    ;
}

/// The angle of a step is near to what it stands for.
proof fn lemma_angle_near(step: u32, total_steps: u32)
    requires
        0 < step <= total_steps,
    ensures
        ({
            let angle = angle_at(step, total_steps);
            &&& near(angle, 360 * step, total_steps as int, 3)
            &&& angle.exp >= 43
        }),
{
    let t = total_steps as int;
    let pos = binary64::quotient_of(step as nat, total_steps as nat);
    let e = pow2(pos.exp) as int;
    lemma2_to64();
    lemma2_to64_rest();
    binary64::lemma_quotient(step as nat, total_steps as nat, 1);
    binary64::lemma_doublings_least(step as nat, total_steps as nat, 0);
    if pos.exp > 52 {
        lemma_pow2_strictly_increases(52, pos.exp);
    }
    binary64::lemma_nearest(step as nat * pow2(pos.exp), total_steps as nat, 0);
    let m = pos.mant * 360;
    binary64::lemma_product(pos.mant, 360);
    let d = pos.mant * t - step * e;
    assert(2 * d <= t && 2 * d >= -t) by (nonlinear_arith)
        requires
            d == pos.mant * t - step * e,
            2 * pos.mant * t <= 2 * (step * e) + t,
            2 * pos.mant * t + t >= 2 * (step * e),
    ;
    let te = t * e;
    assert(0x10_0000_0000_0000 * t <= te) by (nonlinear_arith)
        requires
            te == t * e,
            e >= 0x10_0000_0000_0000,
            t > 0,
    ;
    assert(m * t - (360 * step) * e == 360 * d) by (nonlinear_arith)
        requires
            m == pos.mant * 360,
            d == pos.mant * t - step * e,
    ;
    assert(near(binary64::Dyadic { mant: m, exp: pos.exp }, 360 * step, t, 1));
    assert(m <= 512 * pow2(pos.exp)) by (nonlinear_arith)
        requires
            m == pos.mant * 360,
            pos.mant <= pow2(pos.exp),
    ;
    binary64::lemma_rounded_places(m, pos.exp, 9);
    lemma_near_rounded(m, pos.exp, 360 * step, t, 1);
}

/// What is near to a number is on the same side of a whole number of degrees, unless the
/// number is that number of degrees.
proof fn lemma_side(x: binary64::Dyadic, n: int, t: int, k: int, w: nat)
    requires
        near(x, n, t, k),
        0 < t < 0x1_0000_0000,
        0 <= k <= 20,
    ensures
        x.below(w) ==> n <= w * t,
        !x.below(w) ==> n >= w * t,
        x.at_most(w) ==> n <= w * t,
        !x.at_most(w) ==> n >= w * t,
{
    let p = pow2(x.exp) as int;
    lemma_pow2_pos(x.exp);
    let d = x.mant * t - n * p;
    let tp = t * p;
    assert(d < p && d > -p) by {
        assert(k * tp <= 20 * tp) by (nonlinear_arith)
            requires
                0 <= k <= 20,
                tp == t * p,
                t > 0,
                p > 0,
        ;
        assert(tp < 0x1_0000_0000 * p) by (nonlinear_arith)
            requires
                tp == t * p,
                t < 0x1_0000_0000,
                p > 0,
        ;
    }
    let wp = w * p;
    let wt = w * t;
    if x.mant <= wp {
        assert(x.mant * t <= wt * p) by (nonlinear_arith)
            requires
                x.mant <= wp,
                wp == w * p,
                wt == w * t,
                t > 0,
        ;
        assert(n * p < (wt + 1) * p) by (nonlinear_arith)
            requires
                x.mant * t <= wt * p,
                d == x.mant * t - n * p,
                d > -p,
        ;
        assert(n < wt + 1) by (nonlinear_arith)
            requires
                n * p < (wt + 1) * p,
                p > 0,
        ;
    }
    if x.mant >= wp {
        assert(x.mant * t >= wt * p) by (nonlinear_arith)
            requires
                x.mant >= wp,
                wp == w * p,
                wt == w * t,
                t > 0,
        ;
        assert((n + 1) * p > wt * p) by (nonlinear_arith)
            requires
                x.mant * t >= wt * p,
                d == x.mant * t - n * p,
                d < p,
        ;
        assert(n + 1 > wt) by (nonlinear_arith)
            requires
                (n + 1) * p > wt * p,
                p > 0,
        ;
    }
}

/// The distance of an angle from `start` is near to what it stands for.
proof fn lemma_distance_near(angle: binary64::Dyadic, start: nat, n: int, t: int)
    requires
        near(angle, n, t, 3),
        0 < t < 0x1_0000_0000,
        angle.wf(),
        angle.exp >= 43,
        angle.at_most(360),
        start == 0 || start == 120 || start == 240,
    ensures
        ({
            let d = distance(angle, start);
            &&& d.exp >= 42
            &&& angle.below(start) ==> near(d, n + 360 * t - start * t, t, 7)
            &&& !angle.below(start) ==> near(d, n - start * t, t, 7)
        }),
{
    let e = angle.exp;
    let p = pow2(e);
    lemma2_to64();
    lemma_pow2_pos(e);
    let turned = angle.below(start);
    let from = if turned {
        angle.plus(360)
    } else {
        angle
    };
    let c: int = if turned {
        n + 360 * t
    } else {
        n
    };
    if turned {
        let m = angle.mant + 360 * p;
        assert(m <= 600 * p) by (nonlinear_arith)
            requires
                m == angle.mant + 360 * p,
                angle.mant < start * p,
                start <= 240,
        ;
        assert(m <= 1024 * p) by (nonlinear_arith)
            requires
                m <= 600 * p,
                p > 0,
        ;
        binary64::lemma_rounded_places(m, e, 10);
        binary64::lemma_rounded(m, e, 360);
        binary64::lemma_rounded(m, e, 600);
        assert(m * t - (n + 360 * t) * p == angle.mant * t - n * p) by (nonlinear_arith)
            requires
                m == angle.mant + 360 * p,
        ;
        assert(near(binary64::Dyadic { mant: m, exp: e }, n + 360 * t, t, 3));
        lemma_near_rounded(m, e, n + 360 * t, t, 3);
    } else {
        lemma_near_more(angle, n, t, 3, 5);
    }
    let f = pow2(from.exp);
    lemma_pow2_pos(from.exp);
    let m = (from.mant - start * f) as nat;
    assert(start * f <= from.mant) by (nonlinear_arith)
        requires
            turned ==> from.mant >= 360 * f && start <= 240,
            !turned ==> from.mant >= start * f,
    ;
    assert(m <= 1024 * f) by (nonlinear_arith)
        requires
            m == from.mant - start * f,
            turned ==> from.mant <= 600 * f,
            !turned ==> from.mant <= 360 * f,
            start >= 0,
            f > 0,
    ;
    binary64::lemma_rounded_places(m, from.exp, 10);
    assert(m * t - (c - start * t) * f == from.mant * t - c * f) by (nonlinear_arith)
        requires
            m == from.mant - start * f,
    ;
    assert(near(binary64::Dyadic { mant: m, exp: from.exp }, c - start * t, t, 5));
    lemma_near_rounded(m, from.exp, c - start * t, t, 5);
}

proof fn lemma_near_more(x: binary64::Dyadic, n: int, t: int, k: int, l: int)
    requires
        near(x, n, t, k),
        t > 0,
        k <= l,
    ensures
        near(x, n, t, l),
{
    let tp = t * pow2(x.exp);
    lemma_pow2_pos(x.exp);
    assert(k * tp <= l * tp) by (nonlinear_arith)
        requires
            k <= l,
            tp == t * pow2(x.exp),
            t > 0,
    ;
}

/// What a component is made from a number of degrees that is near to `n / t`: the whole part
/// of 255 sixtieths of it, or one less where there is nothing to cut off.
proof fn lemma_rise_near(d: binary64::Dyadic, n: int, t: int, k: int)
    requires
        near(d, n, t, k),
        0 <= k <= 20,
        0 < t < 0x1_0000_0000,
        0 <= n <= 60 * t,
        d.wf(),
        d.exp >= 42,
        d.at_most(60),
    ensures
        ({
            let x = capped(d.over(60).times(255).whole());
            60 * t * x <= 255 * n <= 60 * t * (x + 1)
        }),
{
    let part = d.over(60);
    let r = part.times(255);
    lemma2_to64();
    lemma2_to64_rest();
    if d.mant == 0 {
        lemma_quotient_of_zero(60);
        assert(part.mant == 0);
        assert(0nat * 255 == 0);
        lemma_exact(0, part.exp);
        assert(0 * pow2(r.exp) == 0);
        binary64::lemma_whole(r, 0);
        let p = pow2(d.exp) as int;
        lemma_pow2_pos(d.exp);
        assert(n == 0) by {
            assert(0 * t == 0);
            assert(0x1000_0000_0000 * (n * p) <= k * (t * p));
            assert(n < 1) by (nonlinear_arith)
                requires
                    0x1000_0000_0000 * (n * p) <= k * (t * p),
                    k <= 20,
                    0 < t < 0x1_0000_0000,
                    p > 0,
            ;
        }
        assert(60 * t * 0 == 0);
        assert(60 * t * 1 > 0);
    } else {
        let p = pow2(d.exp) as int;
        let s = binary64::doublings(d.mant, 60);
        let z = pow2(s) as int;
        binary64::lemma_doublings(d.mant, 60);
        binary64::lemma_nearest(d.mant * pow2(s), 60, 0);
        lemma_pow2_adds(s, d.exp);
        lemma_pow2_pos(d.exp);
        lemma_pow2_pos(s);
        let q = pow2(part.exp) as int;
        assert(q == p * z) by (nonlinear_arith)
            requires
                q == z * p,
        ;
        assert(q >= binary64::LEAST) by (nonlinear_arith)
            requires
                q == p * z,
                d.mant * z >= binary64::LEAST * 60,
                d.mant <= 60 * p,
                z > 0,
        ;
        // The sixtieth part is near to n / (60 * t).
        let y = part.mant as int;
        let w = 60 * t;
        let e1 = d.mant * t - n * p;
        let e2 = y * w - n * q;
        assert(2 * y * 60 == 120 * y);
        let dz = d.mant * z;
        assert(e2 - e1 * z <= 30 * t && e2 - e1 * z >= -30 * t) by (nonlinear_arith)
            requires
                e2 == y * w - n * q,
                w == 60 * t,
                q == p * z,
                e1 == d.mant * t - n * p,
                dz == d.mant * z,
                120 * y <= 2 * dz + 60,
                120 * y + 60 >= 2 * dz,
                t > 0,
        ;
        let tq = t * q;
        assert(0x1000_0000_0000 * (e1 * z) <= k * tq && 0x1000_0000_0000 * (e1 * z) >= -(k * tq))
            by (nonlinear_arith)
            requires
                0x1000_0000_0000 * e1 <= k * (t * p),
                0x1000_0000_0000 * (-e1) <= k * (t * p),
                tq == t * q,
                q == p * z,
                z > 0,
        ;
        assert(k * tq <= 20 * tq) by (nonlinear_arith)
            requires
                0 <= k <= 20,
                tq == t * q,
                t > 0,
                q > 0,
        ;
        assert(0x10_0000_0000_0000 * t <= tq) by (nonlinear_arith)
            requires
                tq == t * q,
                q >= 0x10_0000_0000_0000,
                t > 0,
        ;
        assert(w * q == 60 * tq) by (nonlinear_arith)
            requires
                w == 60 * t,
                tq == t * q,
        ;
        assert(0x1000_0000_0000 * e2 <= 60 * tq && 0x1000_0000_0000 * e2 >= -(60 * tq));
        // So is 255 times that to 255 * n / (60 * t).
        let m = part.mant * 255;
        assert(m * w - (255 * n) * q == 255 * e2) by (nonlinear_arith)
            requires
                m == y * 255,
                e2 == y * w - n * q,
        ;
        assert(255 * (w * q) == 255 * (60 * tq));
        assert(near(binary64::Dyadic { mant: m, exp: part.exp }, 255 * n, w, 255));
        binary64::lemma_quotient(d.mant, 60, 0);
        assert(part.mant <= q) by {
            let dm = d.mant * pow2(s);
            assert(dm <= q * 60) by (nonlinear_arith)
                requires
                    dm == d.mant * z,
                    q == p * z,
                    d.mant <= 60 * p,
                    z > 0,
            ;
            binary64::lemma_nearest(dm, 60, q as nat);
        }
        assert(m <= 256 * pow2(part.exp)) by (nonlinear_arith)
            requires
                m == part.mant * 255,
                part.mant <= pow2(part.exp),
        ;
        assert(part.exp >= 44) by {
            if part.exp < 44 {
                lemma_pow2_strictly_increases(part.exp, 44);
            }
        }
        binary64::lemma_rounded_places(m, part.exp, 8);
        lemma_near_rounded(m, part.exp, 255 * n, w, 255);
        lemma_whole_near(r, 17 * n, 4 * t);
        let x = r.whole() as int;
        let u = 4 * t * x;
        assert(60 * t * x == 15 * u && 60 * t * (x + 1) == 15 * (4 * t * (x + 1)))
            by (nonlinear_arith)
            requires
                u == 4 * t * x,
        ;
        assert(x <= 255) by (nonlinear_arith)
            requires
                4 * t * x <= 17 * n,
                n <= 60 * t,
                t > 0,
        ;
    }
}

/// The whole part of a number that is near enough to a fraction.
proof fn lemma_whole_near(r: binary64::Dyadic, n: int, t: int)
    requires
        near(r, 15 * n, 15 * t, 257),
        0 < t <= 0x4_0000_0000,
        n >= 0,
    ensures
        t * r.whole() <= n <= t * (r.whole() + 1),
{
    let p = pow2(r.exp) as int;
    let y = r.mant as int;
    let w = r.whole() as int;
    lemma_pow2_pos(r.exp);
    vstd::arithmetic::div_mod::lemma_fundamental_div_mod(y, p);
    let rem = y % p;
    assert(w * p <= y < (w + 1) * p) by (nonlinear_arith)
        requires
            y == p * w + rem,
            0 <= rem < p,
    ;
    let d = y * t - n * p;
    assert(y * (15 * t) - (15 * n) * p == 15 * d) by (nonlinear_arith)
        requires
            d == y * t - n * p,
    ;
    let tp = t * p;
    assert((15 * t) * p == 15 * tp) by (nonlinear_arith)
        requires
            tp == t * p,
    ;
    assert(tp <= 0x4_0000_0000 * p) by (nonlinear_arith)
        requires
            tp == t * p,
            t <= 0x4_0000_0000,
            p > 0,
    ;
    assert(d < p && d > -p);
    assert(t * w <= n) by (nonlinear_arith)
        requires
            w * p <= y,
            d == y * t - n * p,
            d < p,
            t > 0,
            p > 0,
    ;
    assert(n <= t * (w + 1)) by (nonlinear_arith)
        requires
            y < (w + 1) * p,
            d == y * t - n * p,
            d > -p,
            t > 0,
            p > 0,
    ;
}

/// How full a component is at a distance of `n / t` degrees from where it begins to rise, in
/// units of `1 / t` degrees: it rises for sixty degrees, stays for a hundred and twenty, and
/// falls for sixty.
pub open spec fn fullness(n: int, t: int) -> int {
    if n <= 60 * t {
        n
    } else if n <= 180 * t {
        60 * t
    } else if n <= 240 * t {
        240 * t - n
    } else {
        0
    }
}

/// How far step `s` of `t` lies behind an angle of `start` degrees, in units of `1 / t`
/// degrees.
pub open spec fn degrees_behind(s: int, t: int, start: int) -> int {
    if 360 * s >= start * t {
        360 * s - start * t
    } else {
        360 * s + 360 * t - start * t
    }
}

proof fn lemma_component_near(step: u32, total_steps: u32, start: nat)
    requires
        0 < step <= total_steps,
        start == 0 || start == 120 || start == 240,
    ensures
        ({
            let t = total_steps as int;
            let x = component_at(angle_at(step, total_steps), start);
            let f = fullness(degrees_behind(step as int, t, start as int), t);
            60 * t * x <= 255 * f <= 60 * t * (x + 1)
        }),
{
    let t = total_steps as int;
    let angle = angle_at(step, total_steps);
    let exact = degrees_behind(step as int, t, start as int);
    lemma2_to64();
    lemma_angle(step, total_steps);
    lemma_angle_near(step, total_steps);
    lemma_side(angle, 360 * step, t, 3, start);
    lemma_distance_near(angle, start, 360 * step, t);
    let d = distance(angle, start);
    let n: int = if angle.below(start) {
        360 * step + 360 * t - start * t
    } else {
        360 * step - start * t
    };
    lemma_distance_wf(angle, start);
    lemma_side(d, n, t, 7, 60);
    lemma_side(d, n, t, 7, 180);
    lemma_side(d, n, t, 7, 240);
    assert(start * t == 0 || start * t == 120 * t || start * t == 240 * t) by (nonlinear_arith)
        requires
            start == 0 || start == 120 || start == 240,
    ;
    assert(exact == n || (exact == 0 && n == 360 * t));
    lemma_pow2_pos(d.exp);
    if exact != n {
        // The angle is that of `start`, and was taken for one just before it.
        assert(!d.below(240));
        assert(component_at(angle, start) == 0);
        assert(60 * t * 0 == 0);
    } else if d.below(60) {
        assert(n >= 0);
        lemma_rise_near(d, n, t, 7);
    } else if d.at_most(180) {
        assert(60 * t * 255 == 255 * (60 * t)) by (nonlinear_arith);
        assert(60 * t * 256 >= 255 * (60 * t)) by (nonlinear_arith)
            requires
                t > 0,
        ;
    } else if d.below(240) {
        let q = pow2(d.exp);
        let m = (240 * q - d.mant) as nat;
        assert(m <= 256 * q) by (nonlinear_arith)
            requires
                m <= 240 * q,
        ;
        binary64::lemma_rounded_places(m, d.exp, 8);
        binary64::lemma_rounded(m, d.exp, 60);
        assert(m * t - (240 * t - n) * q == -(d.mant * t - n * q)) by (nonlinear_arith)
            requires
                m == 240 * q - d.mant,
        ;
        assert(near(binary64::Dyadic { mant: m, exp: d.exp }, 240 * t - n, t, 7));
        lemma_near_rounded(m, d.exp, 240 * t - n, t, 7);
        lemma_rise_near(d.subtracted_from(240), 240 * t - n, t, 9);
    } else {
        assert(60 * t * 0 == 0);
        assert(60 * t * 1 >= 0);
    }
}

proof fn lemma_distance_wf(angle: binary64::Dyadic, start: nat)
    requires
        angle.wf(),
        angle.exp >= 43,
        angle.at_most(360),
        start == 0 || start == 120 || start == 240,
    ensures
        distance(angle, start).wf(),
{
    let e = angle.exp;
    let p = pow2(e);
    lemma2_to64();
    lemma_pow2_pos(e);
    let turned = angle.below(start);
    if turned {
        let m = angle.mant + 360 * p;
        assert(m <= 1024 * p) by (nonlinear_arith)
            requires
                m == angle.mant + 360 * p,
                angle.mant < start * p,
                start <= 240,
        ;
        binary64::lemma_rounded_places(m, e, 10);
        binary64::lemma_rounded(m, e, 360);
        let from = angle.plus(360);
        let f = pow2(from.exp);
        let l = (from.mant - start * f) as nat;
        assert(start * f <= from.mant) by (nonlinear_arith)
            requires
                from.mant >= 360 * f,
                start <= 240,
        ;
        assert(l <= binary64::LIMIT) by (nonlinear_arith)
            requires
                l == from.mant - start * f,
                from.mant <= binary64::LIMIT,
                start >= 0,
                f >= 0,
        ;
        binary64::lemma_excess(l, 1);
        binary64::lemma_rounded(l, from.exp, 0);
    } else {
        let l = (angle.mant - start * p) as nat;
        assert(l <= binary64::LIMIT) by (nonlinear_arith)
            requires
                l == angle.mant - start * p,
                angle.mant <= binary64::LIMIT,
                start >= 0,
                p >= 0,
        ;
        binary64::lemma_excess(l, 1);
        binary64::lemma_rounded(l, e, 0);
    }
}

/// A turn through the colours follows the colour circle: at step `s` of `t`, which is an angle
/// of `360 * s / t` degrees, each component is the whole part of 255 sixtieths of how full it
/// is, or one less where there is nothing to cut off. Blue rises from 0 degrees on, red from
/// 120 and green from 240.
pub proof fn law_rainbow_follows_the_circle(step: u32, total_steps: u32)
    requires
        step <= total_steps,
        total_steps > 0,
    ensures
        ({
            let s = step as int;
            let t = total_steps as int;
            let (r, g, b) = rainbow_color(step, total_steps);
            let red = fullness(degrees_behind(s, t, 120), t);
            let green = fullness(degrees_behind(s, t, 240), t);
            let blue = fullness(degrees_behind(s, t, 0), t);
            &&& 60 * t * r <= 255 * red <= 60 * t * (r + 1)
            &&& 60 * t * g <= 255 * green <= 60 * t * (g + 1)
            &&& 60 * t * b <= 255 * blue <= 60 * t * (b + 1)
        }),
{
    if step == 0 {
        lemma_green(total_steps);
        let t = total_steps as int;
        assert(60 * t * 0 == 0);
        assert(60 * t * 1 > 0);
        assert(60 * t * 255 == 255 * (60 * t)) by (nonlinear_arith);
        assert(60 * t * 256 >= 255 * (60 * t)) by (nonlinear_arith)
            requires
                t > 0,
        ;
    } else {
        lemma_component_near(step, total_steps, 120);
        lemma_component_near(step, total_steps, 240);
        lemma_component_near(step, total_steps, 0);
    }
}

} // verus!
